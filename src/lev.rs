//! The level file: its entities, and decoding and encoding them.
use vstd::prelude::*;
use crate::Position;
use crate::bytes::{text_in, le_u32, get_u32, get_i32, get_u64, get_text, take_u32, take_i32, take_u64, take_text, agrees};
use crate::cipher::{crypt, crypt_top10, TOP10_SIZE};
use crate::count::{count_value, read_count_value, POLYGON_OFFSET, PICTURE_OFFSET};
use crate::error::LevelError;

verus! {

/// Marks the end of the level data; the leaderboard block follows.
pub const EOD: u32 = 0x0067103A;

/// Marks the end of the file.
pub const EOF: u32 = 0x00845D52;

/// Bytes in one leaderboard sub-block.
pub const TOP10_HALF: usize = 344;

/// Entries that a leaderboard sub-block can hold.
pub const TOP10_MAX: i32 = 10;

/// Which game the level was made for, as its format tag tells.
#[derive(Debug, Clone, Copy, PartialEq, Eq, Structural)]
pub enum Version {
    /// Tag `POT06`.
    Across,
    /// Tag `POT14`.
    Elma,
}

/// Type of object.
#[derive(Debug, Clone, Copy, PartialEq, Eq, Structural)]
pub enum ObjectType {
    Apple,
    Exit,
    Killer,
    Player,
}

/// A placed object. A playable level holds one `Player` and at least one `Exit`.
#[derive(Debug, Clone, Copy, PartialEq, Eq, Structural)]
pub struct Object {
    /// Position, as the bit patterns of two doubles.
    pub position: Position<u64>,
    pub object_type: ObjectType,
    /// For apples: 0 none, 1 up, 2 down, 3 left, 4 right.
    pub gravity: i32,
    /// For apples: the animation, 1 to 9.
    pub animation: i32,
}

/// A polygon; its vertices in order, without a closing repeat of the first.
#[derive(Debug, Clone, PartialEq)]
pub struct Polygon {
    pub grass: bool,
    /// Vertices, as the bit patterns of doubles.
    pub vertices: Vec<Position<u64>>,
}

/// A decorative picture.
#[derive(Debug, Clone, PartialEq)]
pub struct Picture {
    pub name: Vec<u8>,
    pub texture: Vec<u8>,
    pub mask: Vec<u8>,
    /// Position, as the bit patterns of two doubles.
    pub position: Position<u64>,
    /// Z-distance.
    pub distance: i32,
    /// Clipping: 0 unclipped, 1 ground, 2 sky; other codes are kept as they are.
    pub clip: i32,
}

/// A leaderboard entry.
#[derive(Debug, Clone, PartialEq)]
pub struct ListEntry {
    pub name_1: Vec<u8>,
    pub name_2: Vec<u8>,
    /// Time in hundredths of a second.
    pub time: i32,
}

/// A whole level.
#[derive(Debug, Clone, PartialEq)]
pub struct Level {
    pub version: Version,
    /// Random number that links the level to its replays.
    pub link: i32,
    /// Four integrity sums, as the bit patterns of doubles.
    pub integrity: [u64; 4],
    pub name: Vec<u8>,
    pub lgr: Vec<u8>,
    pub ground: Vec<u8>,
    pub sky: Vec<u8>,
    pub polygons: Vec<Polygon>,
    pub objects: Vec<Object>,
    pub pictures: Vec<Picture>,
    pub top10_single: Vec<ListEntry>,
    pub top10_multi: Vec<ListEntry>,
}

pub struct PolygonView {
    pub grass: bool,
    pub vertices: Seq<Position<u64>>,
}

pub struct PictureView {
    pub name: Seq<u8>,
    pub texture: Seq<u8>,
    pub mask: Seq<u8>,
    pub position: Position<u64>,
    pub distance: i32,
    pub clip: i32,
}

pub struct EntryView {
    pub name_1: Seq<u8>,
    pub name_2: Seq<u8>,
    pub time: i32,
}

pub struct LevelView {
    pub version: Version,
    pub link: i32,
    pub integrity: Seq<u64>,
    pub name: Seq<u8>,
    pub lgr: Seq<u8>,
    pub ground: Seq<u8>,
    pub sky: Seq<u8>,
    pub polygons: Seq<PolygonView>,
    pub objects: Seq<Object>,
    pub pictures: Seq<PictureView>,
    pub top10_single: Seq<EntryView>,
    pub top10_multi: Seq<EntryView>,
}

impl View for Polygon {
    type V = PolygonView;

    open spec fn view(&self) -> PolygonView {
        PolygonView { grass: self.grass, vertices: self.vertices@ }
    }
}

impl View for Picture {
    type V = PictureView;

    open spec fn view(&self) -> PictureView {
        PictureView {
            name: self.name@,
            texture: self.texture@,
            mask: self.mask@,
            position: self.position,
            distance: self.distance,
            clip: self.clip,
        }
    }
}

impl View for ListEntry {
    type V = EntryView;

    open spec fn view(&self) -> EntryView {
        EntryView { name_1: self.name_1@, name_2: self.name_2@, time: self.time }
    }
}

pub open spec fn polygons_view(v: Seq<Polygon>) -> Seq<PolygonView> {
    v.map_values(|p: Polygon| p@)
}

pub open spec fn pictures_view(v: Seq<Picture>) -> Seq<PictureView> {
    v.map_values(|p: Picture| p@)
}

pub open spec fn entries_view(v: Seq<ListEntry>) -> Seq<EntryView> {
    v.map_values(|e: ListEntry| e@)
}

impl View for Level {
    type V = LevelView;

    open spec fn view(&self) -> LevelView {
        LevelView {
            version: self.version,
            link: self.link,
            integrity: self.integrity@,
            name: self.name@,
            lgr: self.lgr@,
            ground: self.ground@,
            sky: self.sky@,
            polygons: polygons_view(self.polygons@),
            objects: self.objects@,
            pictures: pictures_view(self.pictures@),
            top10_single: entries_view(self.top10_single@),
            top10_multi: entries_view(self.top10_multi@),
        }
    }
}

/// The entry at index `n` of a decrypted leaderboard sub-block.
pub open spec fn entry_at(block: Seq<u8>, n: int) -> EntryView {
    EntryView {
        time: le_u32(block.subrange(4 + 4 * n, 8 + 4 * n)) as i32,
        name_1: text_in(block.subrange(44 + 15 * n, 59 + 15 * n)),
        name_2: text_in(block.subrange(194 + 15 * n, 209 + 15 * n)),
    }
}

/// The entries of a decrypted leaderboard sub-block: as many as its count
/// says, which must lie in zero to ten.
pub open spec fn top10_entries(block: Seq<u8>) -> Result<Seq<EntryView>, LevelError> {
    let count = le_u32(block.subrange(0, 4)) as i32;
    if count < 0 || count > TOP10_MAX {
        Err(LevelError::InvalidLeaderboardCount(count))
    } else {
        Ok(Seq::new(count as nat, |n: int| entry_at(block, n)))
    }
}

/// Parses a decrypted leaderboard sub-block.
pub fn parse_top10(top10: &[u8]) -> (r: Result<Vec<ListEntry>, LevelError>)
    requires
        top10@.len() == TOP10_HALF,
    ensures
        match r {
            Ok(v) => top10_entries(top10@) == Ok::<Seq<EntryView>, LevelError>(entries_view(v@)),
            Err(e) => top10_entries(top10@) == Err::<Seq<EntryView>, LevelError>(e),
        },
{
    let count = match get_i32(top10, 0) {
        Ok((c, _)) => c,
        Err(e) => return Err(e),
    };
    if count < 0 || count > TOP10_MAX {
        return Err(LevelError::InvalidLeaderboardCount(count));
    }
    let ghost want = Seq::new(count as nat, |n: int| entry_at(top10@, n));
    let mut list: Vec<ListEntry> = Vec::new();
    let mut n: usize = 0;
    while n < count as usize
        invariant
            top10@.len() == TOP10_HALF,
            0 <= count <= TOP10_MAX,
            n <= count,
            list@.len() == n,
            entries_view(list@) == want.subrange(0, n as int),
            want == Seq::new(count as nat, |n: int| entry_at(top10@, n)),
        decreases count - n,
    {
        let time = match get_i32(top10, 4 + 4 * n) {
            Ok((t, _)) => t,
            Err(e) => return Err(e),
        };
        let name_1 = match get_text(top10, 44 + 15 * n, 15) {
            Ok((t, _)) => t,
            Err(e) => return Err(e),
        };
        let name_2 = match get_text(top10, 194 + 15 * n, 15) {
            Ok((t, _)) => t,
            Err(e) => return Err(e),
        };
        let entry = ListEntry { name_1, name_2, time };
        assert(entry@ == entry_at(top10@, n as int));
        let ghost before = list@;
        list.push(entry);
        n = n + 1;
        assert forall|j: int| 0 <= j < n implies entries_view(list@)[j] == want[j] by {
            if j < n - 1 {
                assert(list@[j] == before[j]);
                assert(entries_view(before)[j] == want.subrange(0, n - 1)[j]);
            }
        }
        assert(entries_view(list@) =~= want.subrange(0, n as int));
    }
    assert(want.subrange(0, count as int) =~= want);
    Ok(list)
}

/// A position: two doubles.
pub open spec fn take_pos(b: Seq<u8>, pos: int) -> Result<(Position<u64>, int), LevelError> {
    match take_u64(b, pos) {
        Ok((x, p)) => match take_u64(b, p) {
            Ok((y, q)) => Ok((Position { x, y }, q)),
            Err(e) => Err(e),
        },
        Err(e) => Err(e),
    }
}

/// `n` vertices in a row.
pub open spec fn take_vertices(b: Seq<u8>, pos: int, n: nat) -> Result<(Seq<Position<u64>>, int), LevelError>
    decreases n,
{
    if n == 0 {
        Ok((Seq::empty(), pos))
    } else {
        match take_vertices(b, pos, (n - 1) as nat) {
            Ok((s, p)) => match take_pos(b, p) {
                Ok((x, q)) => Ok((s.push(x), q)),
                Err(e) => Err(e),
            },
            Err(e) => Err(e),
        }
    }
}

/// A polygon record: grass flag, vertex count, vertices.
pub open spec fn take_polygon(b: Seq<u8>, pos: int) -> Result<(PolygonView, int), LevelError> {
    match take_i32(b, pos) {
        Ok((g, p)) => match take_i32(b, p) {
            Ok((n, q)) => if n < 0 {
                Err(LevelError::InvalidCount)
            } else {
                match take_vertices(b, q, n as nat) {
                    Ok((vs, r)) => Ok((PolygonView { grass: g > 0, vertices: vs }, r)),
                    Err(e) => Err(e),
                }
            },
            Err(e) => Err(e),
        },
        Err(e) => Err(e),
    }
}

/// `n` polygon records in a row.
pub open spec fn take_polygons(b: Seq<u8>, pos: int, n: nat) -> Result<(Seq<PolygonView>, int), LevelError>
    decreases n,
{
    if n == 0 {
        Ok((Seq::empty(), pos))
    } else {
        match take_polygons(b, pos, (n - 1) as nat) {
            Ok((s, p)) => match take_polygon(b, p) {
                Ok((x, q)) => Ok((s.push(x), q)),
                Err(e) => Err(e),
            },
            Err(e) => Err(e),
        }
    }
}

/// The object type that a stored code names.
pub open spec fn object_type_of(code: i32) -> Option<ObjectType> {
    if code == 1 {
        Some(ObjectType::Exit)
    } else if code == 2 {
        Some(ObjectType::Apple)
    } else if code == 3 {
        Some(ObjectType::Killer)
    } else if code == 4 {
        Some(ObjectType::Player)
    } else {
        None
    }
}

/// The animation index that a stored value stands for: one more, in 32-bit
/// wraparound arithmetic.
pub open spec fn animation_of(stored: i32) -> i32 {
    if stored == i32::MAX {
        i32::MIN
    } else {
        (stored + 1) as i32
    }
}

/// An object record: position, type code, gravity, stored animation.
pub open spec fn take_object(b: Seq<u8>, pos: int) -> Result<(Object, int), LevelError> {
    match take_pos(b, pos) {
        Ok((position, p)) => match take_i32(b, p) {
            Ok((code, p2)) => match object_type_of(code) {
                Some(object_type) => match take_i32(b, p2) {
                    Ok((gravity, p3)) => match take_i32(b, p3) {
                        Ok((a, p4)) => Ok((Object { position, object_type, gravity, animation: animation_of(a) }, p4)),
                        Err(e) => Err(e),
                    },
                    Err(e) => Err(e),
                },
                None => Err(LevelError::UnrecognizedObjectType(code)),
            },
            Err(e) => Err(e),
        },
        Err(e) => Err(e),
    }
}

/// `n` object records in a row.
pub open spec fn take_objects(b: Seq<u8>, pos: int, n: nat) -> Result<(Seq<Object>, int), LevelError>
    decreases n,
{
    if n == 0 {
        Ok((Seq::empty(), pos))
    } else {
        match take_objects(b, pos, (n - 1) as nat) {
            Ok((s, p)) => match take_object(b, p) {
                Ok((x, q)) => Ok((s.push(x), q)),
                Err(e) => Err(e),
            },
            Err(e) => Err(e),
        }
    }
}

/// A picture record: three text fields of ten bytes, position, distance, clip.
pub open spec fn take_picture(b: Seq<u8>, pos: int) -> Result<(PictureView, int), LevelError> {
    match take_text(b, pos, 10) {
        Ok((name, p1)) => match take_text(b, p1, 10) {
            Ok((texture, p2)) => match take_text(b, p2, 10) {
                Ok((mask, p3)) => match take_pos(b, p3) {
                    Ok((position, p4)) => match take_i32(b, p4) {
                        Ok((distance, p5)) => match take_i32(b, p5) {
                            Ok((clip, p6)) => Ok((PictureView { name, texture, mask, position, distance, clip }, p6)),
                            Err(e) => Err(e),
                        },
                        Err(e) => Err(e),
                    },
                    Err(e) => Err(e),
                },
                Err(e) => Err(e),
            },
            Err(e) => Err(e),
        },
        Err(e) => Err(e),
    }
}

/// `n` picture records in a row.
pub open spec fn take_pictures(b: Seq<u8>, pos: int, n: nat) -> Result<(Seq<PictureView>, int), LevelError>
    decreases n,
{
    if n == 0 {
        Ok((Seq::empty(), pos))
    } else {
        match take_pictures(b, pos, (n - 1) as nat) {
            Ok((s, p)) => match take_picture(b, p) {
                Ok((x, q)) => Ok((s.push(x), q)),
                Err(e) => Err(e),
            },
            Err(e) => Err(e),
        }
    }
}

/// A stored count at `pos`.
pub open spec fn take_count(b: Seq<u8>, pos: int, off: u64) -> Result<(nat, int), LevelError> {
    match take_u64(b, pos) {
        Ok((bits, p)) => match count_value(bits, off) {
            Ok(n) => Ok((n as nat, p)),
            Err(e) => Err(e),
        },
        Err(e) => Err(e),
    }
}

proof fn lemma_vertices_err(b: Seq<u8>, pos: int, i: nat, n: nat, e: LevelError)
    requires
        i <= n,
        take_vertices(b, pos, i) == Err::<(Seq<Position<u64>>, int), LevelError>(e),
    ensures
        take_vertices(b, pos, n) == Err::<(Seq<Position<u64>>, int), LevelError>(e),
    decreases n - i,
{
    if i < n {
        lemma_vertices_err(b, pos, i, (n - 1) as nat, e);
    }
}

proof fn lemma_polygons_err(b: Seq<u8>, pos: int, i: nat, n: nat, e: LevelError)
    requires
        i <= n,
        take_polygons(b, pos, i) == Err::<(Seq<PolygonView>, int), LevelError>(e),
    ensures
        take_polygons(b, pos, n) == Err::<(Seq<PolygonView>, int), LevelError>(e),
    decreases n - i,
{
    if i < n {
        lemma_polygons_err(b, pos, i, (n - 1) as nat, e);
    }
}

proof fn lemma_objects_err(b: Seq<u8>, pos: int, i: nat, n: nat, e: LevelError)
    requires
        i <= n,
        take_objects(b, pos, i) == Err::<(Seq<Object>, int), LevelError>(e),
    ensures
        take_objects(b, pos, n) == Err::<(Seq<Object>, int), LevelError>(e),
    decreases n - i,
{
    if i < n {
        lemma_objects_err(b, pos, i, (n - 1) as nat, e);
    }
}

proof fn lemma_pictures_err(b: Seq<u8>, pos: int, i: nat, n: nat, e: LevelError)
    requires
        i <= n,
        take_pictures(b, pos, i) == Err::<(Seq<PictureView>, int), LevelError>(e),
    ensures
        take_pictures(b, pos, n) == Err::<(Seq<PictureView>, int), LevelError>(e),
    decreases n - i,
{
    if i < n {
        lemma_pictures_err(b, pos, i, (n - 1) as nat, e);
    }
}

fn get_pos(b: &[u8], pos: usize) -> (r: Result<(Position<u64>, usize), LevelError>)
    ensures
        agrees(r, take_pos(b@, pos as int)),
{
    let (x, p) = get_u64(b, pos)?;
    let (y, q) = get_u64(b, p)?;
    Ok((Position { x, y }, q))
}

fn get_vertices(b: &[u8], pos: usize, n: usize) -> (r: Result<(Vec<Position<u64>>, usize), LevelError>)
    ensures
        match r {
            Ok((v, p)) => take_vertices(b@, pos as int, n as nat) == Ok::<(Seq<Position<u64>>, int), LevelError>((v@, p as int)),
            Err(e) => take_vertices(b@, pos as int, n as nat) == Err::<(Seq<Position<u64>>, int), LevelError>(e),
        },
{
    let mut v: Vec<Position<u64>> = Vec::new();
    let mut p: usize = pos;
    let mut i: usize = 0;
    while i < n
        invariant
            i <= n,
            take_vertices(b@, pos as int, i as nat) == Ok::<(Seq<Position<u64>>, int), LevelError>((v@, p as int)),
        decreases n - i,
    {
        match get_pos(b, p) {
            Ok((x, q)) => {
                v.push(x);
                p = q;
                i = i + 1;
            },
            Err(e) => {
                proof {
                    lemma_vertices_err(b@, pos as int, (i + 1) as nat, n as nat, e);
                }
                return Err(e);
            },
        }
    }
    Ok((v, p))
}

fn get_polygon(b: &[u8], pos: usize) -> (r: Result<(Polygon, usize), LevelError>)
    ensures
        match r {
            Ok((v, p)) => take_polygon(b@, pos as int) == Ok::<(PolygonView, int), LevelError>((v@, p as int)),
            Err(e) => take_polygon(b@, pos as int) == Err::<(PolygonView, int), LevelError>(e),
        },
{
    let (g, p) = get_i32(b, pos)?;
    let (n, q) = get_i32(b, p)?;
    if n < 0 {
        return Err(LevelError::InvalidCount);
    }
    let (vertices, r) = get_vertices(b, q, n as usize)?;
    Ok((Polygon { grass: g > 0, vertices }, r))
}

fn get_polygons(b: &[u8], pos: usize, n: usize) -> (r: Result<(Vec<Polygon>, usize), LevelError>)
    ensures
        match r {
            Ok((v, p)) => take_polygons(b@, pos as int, n as nat) == Ok::<(Seq<PolygonView>, int), LevelError>((polygons_view(v@), p as int)),
            Err(e) => take_polygons(b@, pos as int, n as nat) == Err::<(Seq<PolygonView>, int), LevelError>(e),
        },
{
    let mut v: Vec<Polygon> = Vec::new();
    assert(polygons_view(v@) =~= Seq::empty());
    let mut p: usize = pos;
    let mut i: usize = 0;
    while i < n
        invariant
            i <= n,
            take_polygons(b@, pos as int, i as nat) == Ok::<(Seq<PolygonView>, int), LevelError>((polygons_view(v@), p as int)),
        decreases n - i,
    {
        match get_polygon(b, p) {
            Ok((x, q)) => {
                let ghost before = v@;
                v.push(x);
                assert(polygons_view(v@) =~= polygons_view(before).push(x@));
                p = q;
                i = i + 1;
            },
            Err(e) => {
                proof {
                    lemma_polygons_err(b@, pos as int, (i + 1) as nat, n as nat, e);
                }
                return Err(e);
            },
        }
    }
    Ok((v, p))
}

fn get_object(b: &[u8], pos: usize) -> (r: Result<(Object, usize), LevelError>)
    ensures
        agrees(r, take_object(b@, pos as int)),
{
    let (position, p) = get_pos(b, pos)?;
    let (code, p2) = get_i32(b, p)?;
    let object_type = if code == 1 {
        ObjectType::Exit
    } else if code == 2 {
        ObjectType::Apple
    } else if code == 3 {
        ObjectType::Killer
    } else if code == 4 {
        ObjectType::Player
    } else {
        return Err(LevelError::UnrecognizedObjectType(code));
    };
    let (gravity, p3) = get_i32(b, p2)?;
    let (a, p4) = get_i32(b, p3)?;
    let animation = a.wrapping_add(1);
    Ok((Object { position, object_type, gravity, animation }, p4))
}

fn get_objects(b: &[u8], pos: usize, n: usize) -> (r: Result<(Vec<Object>, usize), LevelError>)
    ensures
        match r {
            Ok((v, p)) => take_objects(b@, pos as int, n as nat) == Ok::<(Seq<Object>, int), LevelError>((v@, p as int)),
            Err(e) => take_objects(b@, pos as int, n as nat) == Err::<(Seq<Object>, int), LevelError>(e),
        },
{
    let mut v: Vec<Object> = Vec::new();
    let mut p: usize = pos;
    let mut i: usize = 0;
    while i < n
        invariant
            i <= n,
            take_objects(b@, pos as int, i as nat) == Ok::<(Seq<Object>, int), LevelError>((v@, p as int)),
        decreases n - i,
    {
        match get_object(b, p) {
            Ok((x, q)) => {
                v.push(x);
                p = q;
                i = i + 1;
            },
            Err(e) => {
                proof {
                    lemma_objects_err(b@, pos as int, (i + 1) as nat, n as nat, e);
                }
                return Err(e);
            },
        }
    }
    Ok((v, p))
}

fn get_picture(b: &[u8], pos: usize) -> (r: Result<(Picture, usize), LevelError>)
    ensures
        match r {
            Ok((v, p)) => take_picture(b@, pos as int) == Ok::<(PictureView, int), LevelError>((v@, p as int)),
            Err(e) => take_picture(b@, pos as int) == Err::<(PictureView, int), LevelError>(e),
        },
{
    let (name, p1) = get_text(b, pos, 10)?;
    let (texture, p2) = get_text(b, p1, 10)?;
    let (mask, p3) = get_text(b, p2, 10)?;
    let (position, p4) = get_pos(b, p3)?;
    let (distance, p5) = get_i32(b, p4)?;
    let (clip, p6) = get_i32(b, p5)?;
    Ok((Picture { name, texture, mask, position, distance, clip }, p6))
}

fn get_pictures(b: &[u8], pos: usize, n: usize) -> (r: Result<(Vec<Picture>, usize), LevelError>)
    ensures
        match r {
            Ok((v, p)) => take_pictures(b@, pos as int, n as nat) == Ok::<(Seq<PictureView>, int), LevelError>((pictures_view(v@), p as int)),
            Err(e) => take_pictures(b@, pos as int, n as nat) == Err::<(Seq<PictureView>, int), LevelError>(e),
        },
{
    let mut v: Vec<Picture> = Vec::new();
    assert(pictures_view(v@) =~= Seq::empty());
    let mut p: usize = pos;
    let mut i: usize = 0;
    while i < n
        invariant
            i <= n,
            take_pictures(b@, pos as int, i as nat) == Ok::<(Seq<PictureView>, int), LevelError>((pictures_view(v@), p as int)),
        decreases n - i,
    {
        match get_picture(b, p) {
            Ok((x, q)) => {
                let ghost before = v@;
                v.push(x);
                assert(pictures_view(v@) =~= pictures_view(before).push(x@));
                p = q;
                i = i + 1;
            },
            Err(e) => {
                proof {
                    lemma_pictures_err(b@, pos as int, (i + 1) as nat, n as nat, e);
                }
                return Err(e);
            },
        }
    }
    Ok((v, p))
}

fn get_count(b: &[u8], pos: usize, off: u64) -> (r: Result<(usize, usize), LevelError>)
    requires
        off == POLYGON_OFFSET || off == PICTURE_OFFSET,
    ensures
        match r {
            Ok((n, p)) => take_count(b@, pos as int, off) == Ok::<(nat, int), LevelError>((n as nat, p as int)),
            Err(e) => take_count(b@, pos as int, off) == Err::<(nat, int), LevelError>(e),
        },
{
    let (bits, p) = get_u64(b, pos)?;
    let n = read_count_value(bits, off)?;
    Ok((n, p))
}

/// The version that a five-byte format tag names.
pub open spec fn version_of_tag(t: Seq<u8>) -> Option<Version> {
    if t == seq![80u8, 79u8, 84u8, 49u8, 52u8] {
        Some(Version::Elma)
    } else if t == seq![80u8, 79u8, 84u8, 48u8, 54u8] {
        Some(Version::Across)
    } else {
        None
    }
}

/// What follows the pictures: the end-of-data marker, the encrypted
/// leaderboard block, and the end-of-file marker. Gives the two leaderboards.
pub open spec fn parse_tail(b: Seq<u8>, pos: int) -> Result<(Seq<EntryView>, Seq<EntryView>), LevelError> {
    match take_u32(b, pos) {
        Ok((m, p)) => if m != EOD {
            Err(LevelError::MarkerMismatch { expected: EOD, actual: m })
        } else if p + TOP10_SIZE > b.len() {
            Err(LevelError::UnexpectedEof)
        } else {
            let dec = crypt(b.subrange(p, p + TOP10_SIZE));
            match top10_entries(dec.subrange(0, 344)) {
                Ok(single) => match top10_entries(dec.subrange(344, 688)) {
                    Ok(multi) => match take_u32(b, p + TOP10_SIZE) {
                        Ok((m2, _)) => if m2 != EOF {
                            Err(LevelError::MarkerMismatch { expected: EOF, actual: m2 })
                        } else {
                            Ok((single, multi))
                        },
                        Err(e) => Err(e),
                    },
                    Err(e) => Err(e),
                },
                Err(e) => Err(e),
            }
        },
        Err(e) => Err(e),
    }
}

/// The polygons, objects and pictures, each section a stored count and its
/// records, starting at `pos`; and the position after them.
pub open spec fn parse_sections(b: Seq<u8>, pos: int) -> Result<(Seq<PolygonView>, Seq<Object>, Seq<PictureView>, int), LevelError> {
    match take_count(b, pos, POLYGON_OFFSET) {
        Ok((np, p1)) => match take_polygons(b, p1, np) {
            Ok((polygons, p2)) => match take_count(b, p2, POLYGON_OFFSET) {
                Ok((no, p3)) => match take_objects(b, p3, no) {
                    Ok((objects, p4)) => match take_count(b, p4, PICTURE_OFFSET) {
                        Ok((nc, p5)) => match take_pictures(b, p5, nc) {
                            Ok((pictures, p6)) => Ok((polygons, objects, pictures, p6)),
                            Err(e) => Err(e),
                        },
                        Err(e) => Err(e),
                    },
                    Err(e) => Err(e),
                },
                Err(e) => Err(e),
            },
            Err(e) => Err(e),
        },
        Err(e) => Err(e),
    }
}

/// The level that a buffer holds, or the first failure met reading it in order.
#[verifier::opaque]
pub open spec fn parse_level(b: Seq<u8>) -> Result<LevelView, LevelError> {
    if b.len() < 5 {
        Err(LevelError::UnexpectedEof)
    } else {
        match version_of_tag(b.subrange(0, 5)) {
            None => Err(LevelError::UnrecognizedFormat),
            Some(version) => if b.len() < 130 {
                Err(LevelError::UnexpectedEof)
            } else {
                match parse_sections(b, 130) {
                    Ok((polygons, objects, pictures, p)) => match parse_tail(b, p) {
                        Ok((single, multi)) => Ok(LevelView {
                            version,
                            link: le_u32(b.subrange(7, 11)) as i32,
                            integrity: seq![
                                crate::bytes::le_u64(b.subrange(11, 19)),
                                crate::bytes::le_u64(b.subrange(19, 27)),
                                crate::bytes::le_u64(b.subrange(27, 35)),
                                crate::bytes::le_u64(b.subrange(35, 43)),
                            ],
                            name: text_in(b.subrange(43, 94)),
                            lgr: text_in(b.subrange(94, 110)),
                            ground: text_in(b.subrange(110, 120)),
                            sky: text_in(b.subrange(120, 130)),
                            polygons,
                            objects,
                            pictures,
                            top10_single: single,
                            top10_multi: multi,
                        }),
                        Err(e) => Err(e),
                    },
                    Err(e) => Err(e),
                }
            },
        }
    }
}

fn get_sections(b: &[u8], pos: usize) -> (r: Result<(Vec<Polygon>, Vec<Object>, Vec<Picture>, usize), LevelError>)
    ensures
        match r {
            Ok((ps, os, cs, p)) => parse_sections(b@, pos as int) == Ok::<(Seq<PolygonView>, Seq<Object>, Seq<PictureView>, int), LevelError>(
                (polygons_view(ps@), os@, pictures_view(cs@), p as int)),
            Err(e) => parse_sections(b@, pos as int) == Err::<(Seq<PolygonView>, Seq<Object>, Seq<PictureView>, int), LevelError>(e),
        },
{
    let (np, p1) = get_count(b, pos, POLYGON_OFFSET)?;
    let (polygons, p2) = get_polygons(b, p1, np)?;
    let (no, p3) = get_count(b, p2, POLYGON_OFFSET)?;
    let (objects, p4) = get_objects(b, p3, no)?;
    let (nc, p5) = get_count(b, p4, PICTURE_OFFSET)?;
    let (pictures, p6) = get_pictures(b, p5, nc)?;
    Ok((polygons, objects, pictures, p6))
}

fn get_tail(b: &[u8], pos: usize) -> (r: Result<(Vec<ListEntry>, Vec<ListEntry>), LevelError>)
    ensures
        match r {
            Ok((s, m)) => parse_tail(b@, pos as int) == Ok::<(Seq<EntryView>, Seq<EntryView>), LevelError>(
                (entries_view(s@), entries_view(m@))),
            Err(e) => parse_tail(b@, pos as int) == Err::<(Seq<EntryView>, Seq<EntryView>), LevelError>(e),
        },
{
    let (m, p) = get_u32(b, pos)?;
    if m != EOD {
        return Err(LevelError::MarkerMismatch { expected: EOD, actual: m });
    }
    if !(p <= b.len() && TOP10_SIZE <= b.len() - p) {
        return Err(LevelError::UnexpectedEof);
    }
    let end: usize = p + TOP10_SIZE;
    let mut block: Vec<u8> = Vec::new();
    let mut i: usize = 0;
    while i < TOP10_SIZE
        invariant
            end == p + TOP10_SIZE,
            p + TOP10_SIZE <= b@.len(),
            i <= TOP10_SIZE,
            block@ == b@.subrange(p as int, p + i),
        decreases TOP10_SIZE - i,
    {
        block.push(b[p + i]);
        i = i + 1;
        assert(block@ =~= b@.subrange(p as int, p + i));
    }
    let dec = crypt_top10(block);
    let single = parse_top10(slice_of(&dec, 0, TOP10_HALF).as_slice())?;
    let multi = parse_top10(slice_of(&dec, TOP10_HALF, TOP10_SIZE).as_slice())?;
    let (m2, _) = get_u32(b, p + TOP10_SIZE)?;
    if m2 != EOF {
        return Err(LevelError::MarkerMismatch { expected: EOF, actual: m2 });
    }
    Ok((single, multi))
}

/// A copy of `v[lo..hi]`.
fn slice_of(v: &Vec<u8>, lo: usize, hi: usize) -> (r: Vec<u8>)
    requires
        lo <= hi <= v@.len(),
    ensures
        r@ == v@.subrange(lo as int, hi as int),
{
    let mut r: Vec<u8> = Vec::new();
    let mut i: usize = lo;
    while i < hi
        invariant
            lo <= i <= hi <= v@.len(),
            r@ == v@.subrange(lo as int, i as int),
        decreases hi - i,
    {
        r.push(v[i]);
        i = i + 1;
        assert(r@ =~= v@.subrange(lo as int, i as int));
    }
    r
}

impl Polygon {
    /// An empty polygon that is not grass.
    pub fn new() -> (r: Polygon)
        ensures
            r@ == (PolygonView { grass: false, vertices: Seq::empty() }),
    {
        Polygon { grass: false, vertices: Vec::new() }
    }
}

/// The bytes of `default`.
pub open spec fn default_lgr() -> Seq<u8> {
    seq![100u8, 101u8, 102u8, 97u8, 117u8, 108u8, 116u8]
}

/// The bytes of `ground`.
pub open spec fn default_ground() -> Seq<u8> {
    seq![103u8, 114u8, 111u8, 117u8, 110u8, 100u8]
}

/// The bytes of `sky`.
pub open spec fn default_sky() -> Seq<u8> {
    seq![115u8, 107u8, 121u8]
}

/// The level that a new `Level` holds.
pub open spec fn empty_level() -> LevelView {
    LevelView {
        version: Version::Elma,
        link: 0,
        integrity: seq![0u64, 0u64, 0u64, 0u64],
        name: Seq::empty(),
        lgr: default_lgr(),
        ground: default_ground(),
        sky: default_sky(),
        polygons: Seq::empty(),
        objects: Seq::empty(),
        pictures: Seq::empty(),
        top10_single: Seq::empty(),
        top10_multi: Seq::empty(),
    }
}

impl Default for Level {
    fn default() -> (r: Level)
        ensures
            r@ == empty_level(),
    {
        Level::new()
    }
}

impl Level {
    /// A new level: Elma format, link and integrity sums zero, no name, the
    /// default LGR, ground and sky textures, and nothing in it.
    pub fn new() -> (r: Level)
        ensures
            r@ == empty_level(),
    {
        let r = Level {
            version: Version::Elma,
            link: 0,
            integrity: [0u64; 4],
            name: Vec::new(),
            lgr: vec![100u8, 101u8, 102u8, 97u8, 117u8, 108u8, 116u8],
            ground: vec![103u8, 114u8, 111u8, 117u8, 110u8, 100u8],
            sky: vec![115u8, 107u8, 121u8],
            polygons: Vec::new(),
            objects: Vec::new(),
            pictures: Vec::new(),
            top10_single: Vec::new(),
            top10_multi: Vec::new(),
        };
        assert(r@.integrity =~= seq![0u64, 0u64, 0u64, 0u64]);
        assert(r@.lgr =~= default_lgr());
        assert(r@.ground =~= default_ground());
        assert(r@.sky =~= default_sky());
        assert(r@.polygons =~= Seq::empty());
        assert(r@.pictures =~= Seq::empty());
        assert(r@.top10_single =~= Seq::empty());
        assert(r@.top10_multi =~= Seq::empty());
        r
    }

    /// Decodes a level file held in `buf`. Bytes after the end-of-file marker
    /// are ignored.
    pub fn decode(buf: &[u8]) -> (r: Result<Level, LevelError>)
        ensures
            match r {
                Ok(l) => parse_level(buf@) == Ok::<LevelView, LevelError>(l@),
                Err(e) => parse_level(buf@) == Err::<LevelView, LevelError>(e),
            },
    {
        proof {
            reveal(parse_level);
        }
        if buf.len() < 5 {
            return Err(LevelError::UnexpectedEof);
        }
        let version = if buf[0] == 80 && buf[1] == 79 && buf[2] == 84 && buf[3] == 49 && buf[4] == 52 {
            assert(buf@.subrange(0, 5) =~= seq![80u8, 79u8, 84u8, 49u8, 52u8]);
            Version::Elma
        } else if buf[0] == 80 && buf[1] == 79 && buf[2] == 84 && buf[3] == 48 && buf[4] == 54 {
            assert(buf@.subrange(0, 5) =~= seq![80u8, 79u8, 84u8, 48u8, 54u8]);
            Version::Across
        } else {
            proof {
                let t = buf@.subrange(0, 5);
                let elma = seq![80u8, 79u8, 84u8, 49u8, 52u8];
                let across = seq![80u8, 79u8, 84u8, 48u8, 54u8];
                if t == elma {
                    assert(t[0] == elma[0] && t[1] == elma[1] && t[2] == elma[2] && t[3] == elma[3] && t[4] == elma[4]);
                }
                if t == across {
                    assert(t[0] == across[0] && t[1] == across[1] && t[2] == across[2] && t[3] == across[3] && t[4] == across[4]);
                }
            }
            return Err(LevelError::UnrecognizedFormat);
        };
        if buf.len() < 130 {
            return Err(LevelError::UnexpectedEof);
        }
        let (link, _) = get_i32(buf, 7)?;
        let (i0, _) = get_u64(buf, 11)?;
        let (i1, _) = get_u64(buf, 19)?;
        let (i2, _) = get_u64(buf, 27)?;
        let (i3, _) = get_u64(buf, 35)?;
        let (name, _) = get_text(buf, 43, 51)?;
        let (lgr, _) = get_text(buf, 94, 16)?;
        let (ground, _) = get_text(buf, 110, 10)?;
        let (sky, _) = get_text(buf, 120, 10)?;
        let (polygons, objects, pictures, p) = get_sections(buf, 130)?;
        let (top10_single, top10_multi) = get_tail(buf, p)?;
        let level = Level {
            version,
            link,
            integrity: [i0, i1, i2, i3],
            name,
            lgr,
            ground,
            sky,
            polygons,
            objects,
            pictures,
            top10_single,
            top10_multi,
        };
        assert(level@.integrity =~= seq![i0, i1, i2, i3]);
        Ok(level)
    }
}

/// A leaderboard sub-block that stores a count outside zero to ten (eleven, say)
/// fails with `InvalidLeaderboardCount`; one that stores zero holds no entries.
pub proof fn lemma_top10_count_bounds(block: Seq<u8>)
    requires
        block.len() == TOP10_HALF,
    ensures
        (le_u32(block.subrange(0, 4)) as i32) < 0 || (le_u32(block.subrange(0, 4)) as i32) > TOP10_MAX
            ==> top10_entries(block) == Err::<Seq<EntryView>, LevelError>(
                LevelError::InvalidLeaderboardCount(le_u32(block.subrange(0, 4)) as i32)),
        le_u32(block.subrange(0, 4)) == 0 ==> top10_entries(block) == Ok::<Seq<EntryView>, LevelError>(Seq::empty()),
{
    if le_u32(block.subrange(0, 4)) == 0 {
        assert(Seq::new(0, |n: int| entry_at(block, n)) =~= Seq::<EntryView>::empty());
    }
}

/// An object record whose type code is outside one to four (five, say) fails
/// with `UnrecognizedObjectType`, carrying the code.
pub proof fn lemma_object_type_rejected(b: Seq<u8>, pos: int)
    requires
        take_pos(b, pos) is Ok,
        take_i32(b, pos + 16) is Ok,
        object_type_of(take_i32(b, pos + 16)->Ok_0.0) is None,
    ensures
        take_object(b, pos) == Err::<(Object, int), LevelError>(
            LevelError::UnrecognizedObjectType(take_i32(b, pos + 16)->Ok_0.0)),
{
}

} // verus!
