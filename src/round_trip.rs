//! Decoding the bytes of an encoded level gives the level back.
use vstd::prelude::*;
use crate::Position;
use crate::bytes::{
    le_u32, u32_le, u64_le, text_in, text_field, take_u32, take_i32, take_u64, take_text,
    lemma_text_in_prefix, lemma_u32_le_round_trip, lemma_u64_le_round_trip,
};
use crate::enc::{level_bytes, tag_of, encode_error, picture_fits, entry_fits, time_slots, name_1_slots, name_2_slots, top10_block, 
    pos_bytes, vertices_bytes, polygon_bytes, polygons_bytes, object_bytes, objects_bytes,
    picture_bytes, pictures_bytes, code_of, stored_animation, lemma_animation_offset,
};
use crate::lev::{
    take_pos, take_vertices, take_polygon, take_polygons, take_object, take_objects, take_picture,
    take_pictures, LevelView, parse_level, parse_sections, parse_tail, take_count,
    version_of_tag, EOD, EOF, PolygonView, PictureView, Object, EntryView, top10_entries, entry_at,
};
use crate::error::LevelError;
use crate::cipher::{crypt, lemma_crypt_involution};
use crate::count::{
    count_bits, count_value, rounds_to, lemma_nearest_exists, lemma_count_round_trip, MAX_COUNT,
    POLYGON_OFFSET, PICTURE_OFFSET,
};

verus! {

/// No byte of `t` is zero.
pub open spec fn no_zero(t: Seq<u8>) -> bool {
    forall|i: int| 0 <= i < t.len() ==> t[i] != 0
}

/// Text that fits its field, and holds no zero byte, is read back as it was.
pub proof fn lemma_text_round_trip(t: Seq<u8>, w: int)
    requires
        t.len() < w,
        no_zero(t),
    ensures
        text_in(text_field(t, w)) == t,
        text_field(t, w).len() == w,
{
    let f = text_field(t, w);
    assert(f[t.len() as int] == 0);
    lemma_text_in_prefix(f, t.len() as int);
    assert(f.subrange(0, t.len() as int) =~= t);
}

/// `s` stands in `b` at `p`.
pub open spec fn holds_at(b: Seq<u8>, p: int, s: Seq<u8>) -> bool {
    0 <= p && p + s.len() <= b.len() && b.subrange(p, p + s.len()) == s
}

/// Where `s1 + s2` stands at `p`, `s1` stands at `p` and `s2` after it.
pub proof fn lemma_holds_split(b: Seq<u8>, p: int, s1: Seq<u8>, s2: Seq<u8>)
    requires
        holds_at(b, p, s1 + s2),
    ensures
        holds_at(b, p, s1),
        holds_at(b, p + s1.len(), s2),
{
    assert(b.subrange(p, p + s1.len()) =~= (s1 + s2).subrange(0, s1.len() as int));
    assert(b.subrange(p + s1.len(), p + s1.len() + s2.len()) =~= (s1 + s2).subrange(s1.len() as int, (s1.len() + s2.len()) as int));
    assert((s1 + s2).subrange(0, s1.len() as int) =~= s1);
    assert((s1 + s2).subrange(s1.len() as int, (s1.len() + s2.len()) as int) =~= s2);
}

pub proof fn lemma_read_u32(b: Seq<u8>, p: int, n: u32)
    requires
        holds_at(b, p, u32_le(n)),
    ensures
        take_u32(b, p) == Ok::<(u32, int), LevelError>((n, p + 4)),
{
    lemma_u32_le_round_trip(n);
}

pub proof fn lemma_read_i32(b: Seq<u8>, p: int, n: i32)
    requires
        holds_at(b, p, u32_le(n as u32)),
    ensures
        take_i32(b, p) == Ok::<(i32, int), LevelError>((n, p + 4)),
{
    lemma_u32_le_round_trip(n as u32);
    assert((n as u32) as i32 == n) by (bit_vector);
}

pub proof fn lemma_read_u64(b: Seq<u8>, p: int, n: u64)
    requires
        holds_at(b, p, u64_le(n)),
    ensures
        take_u64(b, p) == Ok::<(u64, int), LevelError>((n, p + 8)),
{
    lemma_u64_le_round_trip(n);
}

pub proof fn lemma_read_text(b: Seq<u8>, p: int, t: Seq<u8>, w: int)
    requires
        t.len() < w,
        no_zero(t),
        holds_at(b, p, text_field(t, w)),
    ensures
        take_text(b, p, w) == Ok::<(Seq<u8>, int), LevelError>((t, p + w)),
{
    lemma_text_round_trip(t, w);
}

pub proof fn lemma_read_pos(b: Seq<u8>, p: int, v: Position<u64>)
    requires
        holds_at(b, p, pos_bytes(v)),
    ensures
        take_pos(b, p) == Ok::<(Position<u64>, int), LevelError>((v, p + 16)),
{
    lemma_holds_split(b, p, u64_le(v.x), u64_le(v.y));
    lemma_read_u64(b, p, v.x);
    lemma_read_u64(b, p + 8, v.y);
}

pub proof fn lemma_read_vertices(b: Seq<u8>, p: int, vs: Seq<Position<u64>>)
    requires
        holds_at(b, p, vertices_bytes(vs)),
    ensures
        take_vertices(b, p, vs.len()) == Ok::<(Seq<Position<u64>>, int), LevelError>((vs, p + vertices_bytes(vs).len())),
    decreases vs.len(),
{
    if vs.len() == 0 {
        assert(vs =~= Seq::<Position<u64>>::empty());
    } else {
        let front = vs.drop_last();
        lemma_holds_split(b, p, vertices_bytes(front), pos_bytes(vs.last()));
        lemma_read_vertices(b, p, front);
        lemma_read_pos(b, p + vertices_bytes(front).len(), vs.last());
        assert(front.push(vs.last()) =~= vs);
    }
}

/// A polygon that can be stored.
pub open spec fn polygon_ok(q: PolygonView) -> bool {
    q.vertices.len() <= i32::MAX
}

pub proof fn lemma_read_polygon(b: Seq<u8>, p: int, q: PolygonView)
    requires
        polygon_ok(q),
        holds_at(b, p, polygon_bytes(q)),
    ensures
        take_polygon(b, p) == Ok::<(PolygonView, int), LevelError>((q, p + polygon_bytes(q).len())),
{
    let g = if q.grass { 1u32 } else { 0u32 };
    let n = q.vertices.len() as u32;
    lemma_holds_split(b, p, u32_le(g) + u32_le(n), vertices_bytes(q.vertices));
    lemma_holds_split(b, p, u32_le(g), u32_le(n));
    lemma_read_i32(b, p, g as i32);
    lemma_read_i32(b, p + 4, n as i32);
    lemma_read_vertices(b, p + 8, q.vertices);
}

pub proof fn lemma_read_polygons(b: Seq<u8>, p: int, qs: Seq<PolygonView>)
    requires
        forall|i: int| 0 <= i < qs.len() ==> #[trigger] polygon_ok(qs[i]),
        holds_at(b, p, polygons_bytes(qs)),
    ensures
        take_polygons(b, p, qs.len()) == Ok::<(Seq<PolygonView>, int), LevelError>((qs, p + polygons_bytes(qs).len())),
    decreases qs.len(),
{
    if qs.len() == 0 {
        assert(qs =~= Seq::<PolygonView>::empty());
    } else {
        let front = qs.drop_last();
        assert(polygon_ok(qs[qs.len() - 1]));
        lemma_holds_split(b, p, polygons_bytes(front), polygon_bytes(qs.last()));
        lemma_read_polygons(b, p, front);
        lemma_read_polygon(b, p + polygons_bytes(front).len(), qs.last());
        assert(front.push(qs.last()) =~= qs);
    }
}

pub proof fn lemma_read_object(b: Seq<u8>, p: int, o: Object)
    requires
        holds_at(b, p, object_bytes(o)),
    ensures
        take_object(b, p) == Ok::<(Object, int), LevelError>((o, p + 28)),
{
    let s1 = pos_bytes(o.position);
    let s2 = u32_le(code_of(o.object_type) as u32);
    let s3 = u32_le(o.gravity as u32);
    let s4 = u32_le(stored_animation(o.animation) as u32);
    lemma_holds_split(b, p, s1 + s2 + s3, s4);
    lemma_holds_split(b, p, s1 + s2, s3);
    lemma_holds_split(b, p, s1, s2);
    lemma_read_pos(b, p, o.position);
    lemma_read_i32(b, p + 16, code_of(o.object_type));
    lemma_read_i32(b, p + 20, o.gravity);
    lemma_read_i32(b, p + 24, stored_animation(o.animation));
    lemma_animation_offset(o.animation, 0);
}

pub proof fn lemma_read_objects(b: Seq<u8>, p: int, os: Seq<Object>)
    requires
        holds_at(b, p, objects_bytes(os)),
    ensures
        take_objects(b, p, os.len()) == Ok::<(Seq<Object>, int), LevelError>((os, p + objects_bytes(os).len())),
    decreases os.len(),
{
    if os.len() == 0 {
        assert(os =~= Seq::<Object>::empty());
    } else {
        let front = os.drop_last();
        lemma_holds_split(b, p, objects_bytes(front), object_bytes(os.last()));
        lemma_read_objects(b, p, front);
        lemma_read_object(b, p + objects_bytes(front).len(), os.last());
        assert(front.push(os.last()) =~= os);
    }
}

/// A picture that can be stored and read back.
pub open spec fn picture_ok(q: PictureView) -> bool {
    &&& q.name.len() < 10 && q.texture.len() < 10 && q.mask.len() < 10
    &&& no_zero(q.name) && no_zero(q.texture) && no_zero(q.mask)
}

pub proof fn lemma_read_picture(b: Seq<u8>, p: int, q: PictureView)
    requires
        picture_ok(q),
        holds_at(b, p, picture_bytes(q)),
    ensures
        take_picture(b, p) == Ok::<(PictureView, int), LevelError>((q, p + 54)),
{
    let s1 = text_field(q.name, 10);
    let s2 = text_field(q.texture, 10);
    let s3 = text_field(q.mask, 10);
    let s4 = pos_bytes(q.position);
    let s5 = u32_le(q.distance as u32);
    let s6 = u32_le(q.clip as u32);
    lemma_text_round_trip(q.name, 10);
    lemma_text_round_trip(q.texture, 10);
    lemma_text_round_trip(q.mask, 10);
    lemma_holds_split(b, p, s1 + s2 + s3 + s4 + s5, s6);
    lemma_holds_split(b, p, s1 + s2 + s3 + s4, s5);
    lemma_holds_split(b, p, s1 + s2 + s3, s4);
    lemma_holds_split(b, p, s1 + s2, s3);
    lemma_holds_split(b, p, s1, s2);
    lemma_read_text(b, p, q.name, 10);
    lemma_read_text(b, p + 10, q.texture, 10);
    lemma_read_text(b, p + 20, q.mask, 10);
    lemma_read_pos(b, p + 30, q.position);
    lemma_read_i32(b, p + 46, q.distance);
    lemma_read_i32(b, p + 50, q.clip);
}

pub proof fn lemma_read_pictures(b: Seq<u8>, p: int, qs: Seq<PictureView>)
    requires
        forall|i: int| 0 <= i < qs.len() ==> #[trigger] picture_ok(qs[i]),
        holds_at(b, p, pictures_bytes(qs)),
    ensures
        take_pictures(b, p, qs.len()) == Ok::<(Seq<PictureView>, int), LevelError>((qs, p + pictures_bytes(qs).len())),
    decreases qs.len(),
{
    if qs.len() == 0 {
        assert(qs =~= Seq::<PictureView>::empty());
    } else {
        let front = qs.drop_last();
        assert(picture_ok(qs[qs.len() - 1]));
        lemma_holds_split(b, p, pictures_bytes(front), picture_bytes(qs.last()));
        lemma_read_pictures(b, p, front);
        lemma_read_picture(b, p + pictures_bytes(front).len(), qs.last());
        assert(front.push(qs.last()) =~= qs);
    }
}

/// A leaderboard entry that can be stored and read back.
pub open spec fn entry_ok(e: EntryView) -> bool {
    e.name_1.len() < 15 && e.name_2.len() < 15 && no_zero(e.name_1) && no_zero(e.name_2)
}

pub open spec fn time_slot(es: Seq<EntryView>, n: int) -> Seq<u8> {
    if n < es.len() {
        u32_le(es[n].time as u32)
    } else {
        u32_le(0)
    }
}

pub open spec fn name_1_slot(es: Seq<EntryView>, n: int) -> Seq<u8> {
    text_field(if n < es.len() { es[n].name_1 } else { Seq::empty() }, 15)
}

pub open spec fn name_2_slot(es: Seq<EntryView>, n: int) -> Seq<u8> {
    text_field(if n < es.len() { es[n].name_2 } else { Seq::empty() }, 15)
}

proof fn lemma_time_slot(es: Seq<EntryView>, k: nat, n: int)
    requires
        0 <= n < k,
    ensures
        time_slots(es, k).len() == 4 * k,
        time_slots(es, k).subrange(4 * n, 4 * n + 4) == time_slot(es, n),
    decreases k,
{
    let prev = time_slots(es, (k - 1) as nat);
    if n < k - 1 {
        lemma_time_slot(es, (k - 1) as nat, n);
        assert(time_slots(es, k).subrange(4 * n, 4 * n + 4) =~= prev.subrange(4 * n, 4 * n + 4));
    } else {
        if k > 1 {
            lemma_time_slot(es, (k - 1) as nat, 0);
        }
        assert(time_slots(es, k).subrange(4 * n, 4 * n + 4) =~= time_slot(es, n));
    }
}

proof fn lemma_name_1_slot(es: Seq<EntryView>, k: nat, n: int)
    requires
        0 <= n < k,
        forall|i: int| 0 <= i < es.len() ==> #[trigger] entry_ok(es[i]),
    ensures
        name_1_slots(es, k).len() == 15 * k,
        name_1_slots(es, k).subrange(15 * n, 15 * n + 15) == name_1_slot(es, n),
    decreases k,
{
    let prev = name_1_slots(es, (k - 1) as nat);
    if k - 1 < es.len() {
        assert(entry_ok(es[k - 1]));
    }
    if n < k - 1 {
        lemma_name_1_slot(es, (k - 1) as nat, n);
        assert(name_1_slots(es, k).subrange(15 * n, 15 * n + 15) =~= prev.subrange(15 * n, 15 * n + 15));
    } else {
        if k > 1 {
            lemma_name_1_slot(es, (k - 1) as nat, 0);
        }
        assert(name_1_slots(es, k).subrange(15 * n, 15 * n + 15) =~= name_1_slot(es, n));
    }
}

proof fn lemma_name_2_slot(es: Seq<EntryView>, k: nat, n: int)
    requires
        0 <= n < k,
        forall|i: int| 0 <= i < es.len() ==> #[trigger] entry_ok(es[i]),
    ensures
        name_2_slots(es, k).len() == 15 * k,
        name_2_slots(es, k).subrange(15 * n, 15 * n + 15) == name_2_slot(es, n),
    decreases k,
{
    let prev = name_2_slots(es, (k - 1) as nat);
    if k - 1 < es.len() {
        assert(entry_ok(es[k - 1]));
    }
    if n < k - 1 {
        lemma_name_2_slot(es, (k - 1) as nat, n);
        assert(name_2_slots(es, k).subrange(15 * n, 15 * n + 15) =~= prev.subrange(15 * n, 15 * n + 15));
    } else {
        if k > 1 {
            lemma_name_2_slot(es, (k - 1) as nat, 0);
        }
        assert(name_2_slots(es, k).subrange(15 * n, 15 * n + 15) =~= name_2_slot(es, n));
    }
}

/// A leaderboard of at most ten storable entries is read back from its
/// sub-block as it was.
pub proof fn lemma_top10_round_trip(es: Seq<EntryView>)
    requires
        es.len() <= 10,
        forall|i: int| 0 <= i < es.len() ==> #[trigger] entry_ok(es[i]),
    ensures
        top10_block(es).len() == 344,
        top10_entries(top10_block(es)) == Ok::<Seq<EntryView>, LevelError>(es),
{
    let block = top10_block(es);
    let c = u32_le(es.len() as u32);
    let ts = time_slots(es, 10);
    let n1 = name_1_slots(es, 10);
    let n2 = name_2_slots(es, 10);
    lemma_time_slot(es, 10, 0);
    lemma_name_1_slot(es, 10, 0);
    lemma_name_2_slot(es, 10, 0);
    assert(block.len() == 344);
    assert(block.subrange(0, 4) =~= c);
    lemma_u32_le_round_trip(es.len() as u32);
    assert forall|n: int| 0 <= n < es.len() implies #[trigger] entry_at(block, n) == es[n] by {
        lemma_time_slot(es, 10, n);
        lemma_name_1_slot(es, 10, n);
        lemma_name_2_slot(es, 10, n);
        assert(entry_ok(es[n]));
        assert(block.subrange(4 + 4 * n, 8 + 4 * n) =~= ts.subrange(4 * n, 4 * n + 4));
        assert(block.subrange(44 + 15 * n, 59 + 15 * n) =~= n1.subrange(15 * n, 15 * n + 15));
        assert(block.subrange(194 + 15 * n, 209 + 15 * n) =~= n2.subrange(15 * n, 15 * n + 15));
        let t = es[n].time;
        lemma_u32_le_round_trip(t as u32);
        assert((t as u32) as i32 == t) by (bit_vector);
        lemma_text_round_trip(es[n].name_1, 15);
        lemma_text_round_trip(es[n].name_2, 15);
    }
    assert(Seq::new(es.len(), |n: int| entry_at(block, n)) =~= es);
}

/// A stored count is read back as the count.
pub proof fn lemma_read_count(b: Seq<u8>, p: int, c: int, off: u64)
    requires
        0 <= c <= MAX_COUNT,
        off == POLYGON_OFFSET || off == PICTURE_OFFSET,
        holds_at(b, p, u64_le(count_bits(c, off))),
    ensures
        take_count(b, p, off) == Ok::<(nat, int), LevelError>((c as nat, p + 8)),
{
    let r = count_bits(c, off);
    lemma_read_u64(b, p, r);
    lemma_nearest_exists(c, off);
    lemma_count_round_trip(c, off, r);
    let c2 = choose|c2: int| 0 <= c2 <= MAX_COUNT && #[trigger] rounds_to(r, off, c2);
    assert(count_value(r, off) == Ok::<int, LevelError>(c2));
}

/// A level that can be stored and read back: it can be encoded, and no text
/// in it holds a zero byte.
pub open spec fn level_ok(l: LevelView) -> bool {
    &&& encode_error(l) is None
    &&& l.integrity.len() == 4
    &&& no_zero(l.name) && no_zero(l.lgr) && no_zero(l.ground) && no_zero(l.sky)
    &&& forall|i: int| 0 <= i < l.pictures.len() ==> #[trigger] no_zero(l.pictures[i].name)
        && no_zero(l.pictures[i].texture) && no_zero(l.pictures[i].mask)
    &&& forall|i: int| 0 <= i < l.top10_single.len() ==> #[trigger] no_zero(l.top10_single[i].name_1)
        && no_zero(l.top10_single[i].name_2)
    &&& forall|i: int| 0 <= i < l.top10_multi.len() ==> #[trigger] no_zero(l.top10_multi[i].name_1)
        && no_zero(l.top10_multi[i].name_2)
}

/// The fixed-size head of an encoded level, up to the polygon count.
pub open spec fn head_bytes(l: LevelView) -> Seq<u8> {
    tag_of(l.version) + seq![0u8, 0u8] + u32_le(l.link as u32)
        + u64_le(l.integrity[0]) + u64_le(l.integrity[1]) + u64_le(l.integrity[2]) + u64_le(l.integrity[3])
        + text_field(l.name, 51) + text_field(l.lgr, 16) + text_field(l.ground, 10) + text_field(l.sky, 10)
}

/// The leaderboard block of `l` before encryption: both sub-blocks.
pub open spec fn tail_bytes(l: LevelView) -> Seq<u8> {
    crate::enc::top10_block(l.top10_single) + crate::enc::top10_block(l.top10_multi)
}

proof fn lemma_head(l: LevelView, b: Seq<u8>)
    requires
        l.integrity.len() == 4,
        l.name.len() < 51 && l.lgr.len() < 16 && l.ground.len() < 10 && l.sky.len() < 10,
        no_zero(l.name) && no_zero(l.lgr) && no_zero(l.ground) && no_zero(l.sky),
        holds_at(b, 0, head_bytes(l)),
    ensures
        b.len() >= 130,
        version_of_tag(b.subrange(0, 5)) == Some(l.version),
        le_u32(b.subrange(7, 11)) as i32 == l.link,
        seq![
            crate::bytes::le_u64(b.subrange(11, 19)),
            crate::bytes::le_u64(b.subrange(19, 27)),
            crate::bytes::le_u64(b.subrange(27, 35)),
            crate::bytes::le_u64(b.subrange(35, 43)),
        ] == l.integrity,
        text_in(b.subrange(43, 94)) == l.name,
        text_in(b.subrange(94, 110)) == l.lgr,
        text_in(b.subrange(110, 120)) == l.ground,
        text_in(b.subrange(120, 130)) == l.sky,
{
    lemma_text_round_trip(l.name, 51);
    lemma_text_round_trip(l.lgr, 16);
    lemma_text_round_trip(l.ground, 10);
    lemma_text_round_trip(l.sky, 10);
    let s0 = tag_of(l.version);
    let s1 = seq![0u8, 0u8];
    let s2 = u32_le(l.link as u32);
    let s3 = u64_le(l.integrity[0]);
    let s4 = u64_le(l.integrity[1]);
    let s5 = u64_le(l.integrity[2]);
    let s6 = u64_le(l.integrity[3]);
    let s7 = text_field(l.name, 51);
    let s8 = text_field(l.lgr, 16);
    let s9 = text_field(l.ground, 10);
    let s10 = text_field(l.sky, 10);
    lemma_holds_split(b, 0, s0 + s1 + s2 + s3 + s4 + s5 + s6 + s7 + s8 + s9, s10);
    lemma_holds_split(b, 0, s0 + s1 + s2 + s3 + s4 + s5 + s6 + s7 + s8, s9);
    lemma_holds_split(b, 0, s0 + s1 + s2 + s3 + s4 + s5 + s6 + s7, s8);
    lemma_holds_split(b, 0, s0 + s1 + s2 + s3 + s4 + s5 + s6, s7);
    lemma_holds_split(b, 0, s0 + s1 + s2 + s3 + s4 + s5, s6);
    lemma_holds_split(b, 0, s0 + s1 + s2 + s3 + s4, s5);
    lemma_holds_split(b, 0, s0 + s1 + s2 + s3, s4);
    lemma_holds_split(b, 0, s0 + s1 + s2, s3);
    lemma_holds_split(b, 0, s0 + s1, s2);
    lemma_holds_split(b, 0, s0, s1);
    lemma_u32_le_round_trip(l.link as u32);
    let link = l.link;
    assert((link as u32) as i32 == link) by (bit_vector);
    lemma_u64_le_round_trip(l.integrity[0]);
    lemma_u64_le_round_trip(l.integrity[1]);
    lemma_u64_le_round_trip(l.integrity[2]);
    lemma_u64_le_round_trip(l.integrity[3]);
    assert(seq![
        crate::bytes::le_u64(b.subrange(11, 19)),
        crate::bytes::le_u64(b.subrange(19, 27)),
        crate::bytes::le_u64(b.subrange(27, 35)),
        crate::bytes::le_u64(b.subrange(35, 43)),
    ] =~= l.integrity);
}

proof fn lemma_sections(l: LevelView, b: Seq<u8>, p2: int, p4: int, p6: int)
    requires
        l.polygons.len() <= MAX_COUNT && l.objects.len() <= MAX_COUNT && l.pictures.len() <= MAX_COUNT,
        forall|i: int| 0 <= i < l.polygons.len() ==> #[trigger] polygon_ok(l.polygons[i]),
        forall|i: int| 0 <= i < l.pictures.len() ==> #[trigger] picture_ok(l.pictures[i]),
        holds_at(b, 130, u64_le(count_bits(l.polygons.len() as int, POLYGON_OFFSET))),
        holds_at(b, 138, crate::enc::polygons_bytes(l.polygons)),
        p2 == 138 + crate::enc::polygons_bytes(l.polygons).len(),
        holds_at(b, p2, u64_le(count_bits(l.objects.len() as int, POLYGON_OFFSET))),
        holds_at(b, p2 + 8, crate::enc::objects_bytes(l.objects)),
        p4 == p2 + 8 + crate::enc::objects_bytes(l.objects).len(),
        holds_at(b, p4, u64_le(count_bits(l.pictures.len() as int, PICTURE_OFFSET))),
        holds_at(b, p4 + 8, crate::enc::pictures_bytes(l.pictures)),
        p6 == p4 + 8 + crate::enc::pictures_bytes(l.pictures).len(),
    ensures
        parse_sections(b, 130) == Ok::<(Seq<PolygonView>, Seq<Object>, Seq<PictureView>, int), LevelError>(
            (l.polygons, l.objects, l.pictures, p6)),
{
    lemma_read_count(b, 130, l.polygons.len() as int, POLYGON_OFFSET);
    lemma_read_polygons(b, 138, l.polygons);
    lemma_read_count(b, p2, l.objects.len() as int, POLYGON_OFFSET);
    lemma_read_objects(b, p2 + 8, l.objects);
    lemma_read_count(b, p4, l.pictures.len() as int, PICTURE_OFFSET);
    lemma_read_pictures(b, p4 + 8, l.pictures);
}

proof fn lemma_tail(l: LevelView, b: Seq<u8>, p6: int)
    requires
        l.top10_single.len() <= 10,
        l.top10_multi.len() <= 10,
        forall|i: int| 0 <= i < l.top10_single.len() ==> #[trigger] entry_ok(l.top10_single[i]),
        forall|i: int| 0 <= i < l.top10_multi.len() ==> #[trigger] entry_ok(l.top10_multi[i]),
        holds_at(b, p6, u32_le(EOD)),
        holds_at(b, p6 + 4, crypt(tail_bytes(l))),
        holds_at(b, p6 + 4 + crypt(tail_bytes(l)).len(), u32_le(EOF)),
    ensures
        parse_tail(b, p6) == Ok::<(Seq<EntryView>, Seq<EntryView>), LevelError>((l.top10_single, l.top10_multi)),
{
    let t = tail_bytes(l);
    lemma_read_u32(b, p6, EOD);
    lemma_top10_round_trip(l.top10_single);
    lemma_top10_round_trip(l.top10_multi);
    assert(t.len() == 688);
    assert(crypt(t).len() == 688);
    lemma_crypt_involution(t);
    assert(crypt(b.subrange(p6 + 4, p6 + 4 + 688)) == t);
    assert(t.subrange(0, 344) =~= crate::enc::top10_block(l.top10_single));
    assert(t.subrange(344, 688) =~= crate::enc::top10_block(l.top10_multi));
    lemma_read_u32(b, p6 + 4 + 688, EOF);
}

/// Where each part of an encoded level stands.
#[verifier::rlimit(100)]
proof fn lemma_layout(l: LevelView)
    ensures
        ({
            let b = level_bytes(l);
            let h = head_bytes(l);
            let pb = crate::enc::polygons_bytes(l.polygons);
            let ob = crate::enc::objects_bytes(l.objects);
            let cb = crate::enc::pictures_bytes(l.pictures);
            let p1 = h.len() as int;
            let p2 = p1 + 8 + pb.len();
            let p4 = p2 + 8 + ob.len();
            let p6 = p4 + 8 + cb.len();
            &&& holds_at(b, 0, h)
            &&& holds_at(b, p1, u64_le(count_bits(l.polygons.len() as int, POLYGON_OFFSET)))
            &&& holds_at(b, p1 + 8, pb)
            &&& holds_at(b, p2, u64_le(count_bits(l.objects.len() as int, POLYGON_OFFSET)))
            &&& holds_at(b, p2 + 8, ob)
            &&& holds_at(b, p4, u64_le(count_bits(l.pictures.len() as int, PICTURE_OFFSET)))
            &&& holds_at(b, p4 + 8, cb)
            &&& holds_at(b, p6, u32_le(EOD))
            &&& holds_at(b, p6 + 4, crypt(tail_bytes(l)))
            &&& holds_at(b, p6 + 4 + crypt(tail_bytes(l)).len(), u32_le(EOF))
        }),
{
    let b = level_bytes(l);
    let h = head_bytes(l);
    let c1 = u64_le(count_bits(l.polygons.len() as int, POLYGON_OFFSET));
    let pb = crate::enc::polygons_bytes(l.polygons);
    let c2 = u64_le(count_bits(l.objects.len() as int, POLYGON_OFFSET));
    let ob = crate::enc::objects_bytes(l.objects);
    let c3 = u64_le(count_bits(l.pictures.len() as int, PICTURE_OFFSET));
    let cb = crate::enc::pictures_bytes(l.pictures);
    let t = tail_bytes(l);
    reveal(level_bytes);
    let pre1 = h + c1;
    let pre2 = pre1 + pb;
    let pre3 = pre2 + c2;
    let pre4 = pre3 + ob;
    let pre5 = pre4 + c3;
    let pre6 = pre5 + cb;
    let pre7 = pre6 + u32_le(EOD);
    let pre8 = pre7 + crypt(t);
    assert(b == pre8 + u32_le(EOF));
    assert(b.subrange(0, b.len() as int) =~= b);
    lemma_holds_split(b, 0, pre8, u32_le(EOF));
    lemma_holds_split(b, 0, pre7, crypt(t));
    lemma_holds_split(b, 0, pre6, u32_le(EOD));
    lemma_holds_split(b, 0, pre5, cb);
    lemma_holds_split(b, 0, pre4, c3);
    lemma_holds_split(b, 0, pre3, ob);
    lemma_holds_split(b, 0, pre2, c2);
    lemma_holds_split(b, 0, pre1, pb);
    lemma_holds_split(b, 0, h, c1);
}

proof fn lemma_assemble(l: LevelView, b: Seq<u8>, p6: int)
    requires
        b.len() >= 130,
        version_of_tag(b.subrange(0, 5)) == Some(l.version),
        le_u32(b.subrange(7, 11)) as i32 == l.link,
        seq![
            crate::bytes::le_u64(b.subrange(11, 19)),
            crate::bytes::le_u64(b.subrange(19, 27)),
            crate::bytes::le_u64(b.subrange(27, 35)),
            crate::bytes::le_u64(b.subrange(35, 43)),
        ] == l.integrity,
        text_in(b.subrange(43, 94)) == l.name,
        text_in(b.subrange(94, 110)) == l.lgr,
        text_in(b.subrange(110, 120)) == l.ground,
        text_in(b.subrange(120, 130)) == l.sky,
        parse_sections(b, 130) == Ok::<(Seq<PolygonView>, Seq<Object>, Seq<PictureView>, int), LevelError>(
            (l.polygons, l.objects, l.pictures, p6)),
        parse_tail(b, p6) == Ok::<(Seq<EntryView>, Seq<EntryView>), LevelError>((l.top10_single, l.top10_multi)),
    ensures
        parse_level(b) == Ok::<LevelView, LevelError>(l),
{
    reveal(parse_level);
}

proof fn lemma_ok_parts(l: LevelView)
    requires
        level_ok(l),
    ensures
        l.integrity.len() == 4,
        l.name.len() < 51 && l.lgr.len() < 16 && l.ground.len() < 10 && l.sky.len() < 10,
        no_zero(l.name) && no_zero(l.lgr) && no_zero(l.ground) && no_zero(l.sky),
        l.polygons.len() <= MAX_COUNT && l.objects.len() <= MAX_COUNT && l.pictures.len() <= MAX_COUNT,
        forall|i: int| 0 <= i < l.polygons.len() ==> #[trigger] polygon_ok(l.polygons[i]),
        forall|i: int| 0 <= i < l.pictures.len() ==> #[trigger] picture_ok(l.pictures[i]),
        l.top10_single.len() <= 10,
        l.top10_multi.len() <= 10,
        forall|i: int| 0 <= i < l.top10_single.len() ==> #[trigger] entry_ok(l.top10_single[i]),
        forall|i: int| 0 <= i < l.top10_multi.len() ==> #[trigger] entry_ok(l.top10_multi[i]),
{
    assert forall|i: int| 0 <= i < l.polygons.len() implies #[trigger] polygon_ok(l.polygons[i]) by {
        assert(l.polygons[i].vertices.len() <= i32::MAX);
    }
    assert forall|i: int| 0 <= i < l.pictures.len() implies #[trigger] picture_ok(l.pictures[i]) by {
        assert(picture_fits(l.pictures[i]));
        assert(no_zero(l.pictures[i].name));
        assert(no_zero(l.pictures[i].texture) && no_zero(l.pictures[i].mask));
    }
    assert forall|i: int| 0 <= i < l.top10_single.len() implies #[trigger] entry_ok(l.top10_single[i]) by {
        assert(entry_fits(l.top10_single[i]));
        assert(no_zero(l.top10_single[i].name_1));
    }
    assert forall|i: int| 0 <= i < l.top10_multi.len() implies #[trigger] entry_ok(l.top10_multi[i]) by {
        assert(entry_fits(l.top10_multi[i]));
        assert(no_zero(l.top10_multi[i].name_1));
    }
}

#[verifier::rlimit(100)]
proof fn lemma_round_trip_parts(l: LevelView)
    requires
        l.integrity.len() == 4,
        l.name.len() < 51 && l.lgr.len() < 16 && l.ground.len() < 10 && l.sky.len() < 10,
        no_zero(l.name) && no_zero(l.lgr) && no_zero(l.ground) && no_zero(l.sky),
        l.polygons.len() <= MAX_COUNT && l.objects.len() <= MAX_COUNT && l.pictures.len() <= MAX_COUNT,
        forall|i: int| 0 <= i < l.polygons.len() ==> #[trigger] polygon_ok(l.polygons[i]),
        forall|i: int| 0 <= i < l.pictures.len() ==> #[trigger] picture_ok(l.pictures[i]),
        l.top10_single.len() <= 10,
        l.top10_multi.len() <= 10,
        forall|i: int| 0 <= i < l.top10_single.len() ==> #[trigger] entry_ok(l.top10_single[i]),
        forall|i: int| 0 <= i < l.top10_multi.len() ==> #[trigger] entry_ok(l.top10_multi[i]),
    ensures
        parse_level(level_bytes(l)) == Ok::<LevelView, LevelError>(l),
{
    let b = level_bytes(l);
    lemma_text_round_trip(l.name, 51);
    lemma_text_round_trip(l.lgr, 16);
    lemma_text_round_trip(l.ground, 10);
    lemma_text_round_trip(l.sky, 10);
    lemma_layout(l);
    let h = head_bytes(l);
    assert(h.len() == 130);
    lemma_head(l, b);
    let pb = crate::enc::polygons_bytes(l.polygons);
    let ob = crate::enc::objects_bytes(l.objects);
    let cb = crate::enc::pictures_bytes(l.pictures);
    let p2: int = 138 + pb.len() as int;
    let p4: int = p2 + 8 + ob.len() as int;
    let p6: int = p4 + 8 + cb.len() as int;
    lemma_sections(l, b, p2, p4, p6);
    lemma_tail(l, b, p6);
    lemma_assemble(l, b, p6);
}

/// Decoding the encoding of a level that can be stored and read back gives the
/// level.
pub proof fn lemma_level_round_trip(l: LevelView)
    requires
        level_ok(l),
    ensures
        parse_level(level_bytes(l)) == Ok::<LevelView, LevelError>(l),
{
    lemma_ok_parts(l);
    lemma_round_trip_parts(l);
}

} // verus!
