use elma::cipher::crypt_top10;
use elma::count::{decode_count, encode_count, MAX_COUNT, PICTURE_OFFSET, POLYGON_OFFSET};
use elma::error::LevelError;
use elma::lev::{parse_top10, Level, ListEntry, Object, ObjectType, Picture, Polygon, Version, EOD, EOF};
use elma::rec::Rec;
use elma::Position;

fn pos(x: f64, y: f64) -> Position<u64> {
    Position { x: x.to_bits(), y: y.to_bits() }
}

fn sample_level() -> Level {
    let mut level = Level::new();
    level.link = 1524269776;
    level.integrity = [
        (-1148375.210607791f64).to_bits(),
        1164056.210607791f64.to_bits(),
        1162467.210607791f64.to_bits(),
        1162283.210607791f64.to_bits(),
    ];
    level.name = b"Rust test".to_vec();
    let mut p1 = Polygon::new();
    p1.vertices = vec![pos(-24.0, -8.0), pos(24.0, -8.0), pos(24.0, 2.0), pos(-24.0, 2.0)];
    let mut p2 = Polygon::new();
    p2.grass = true;
    p2.vertices = vec![pos(-23.5, 1.0), pos(23.5, 1.0), pos(0.0, 1.5)];
    level.polygons = vec![p1, p2];
    let kinds = [
        ObjectType::Player,
        ObjectType::Exit,
        ObjectType::Apple,
        ObjectType::Apple,
        ObjectType::Apple,
        ObjectType::Killer,
        ObjectType::Killer,
        ObjectType::Exit,
    ];
    for (i, k) in kinds.iter().enumerate() {
        level.objects.push(Object {
            position: pos(i as f64 * 2.0 - 8.0, 1.0),
            object_type: *k,
            gravity: (i % 5) as i32,
            animation: (i % 9) as i32 + 1,
        });
    }
    level.pictures = vec![
        Picture {
            name: b"barrel".to_vec(),
            texture: vec![],
            mask: vec![],
            position: pos(3.0, -1.0),
            distance: 380,
            clip: 1,
        },
        Picture {
            name: vec![],
            texture: b"stone1".to_vec(),
            mask: b"maskbig".to_vec(),
            position: pos(-3.0, -2.5),
            distance: 750,
            clip: 2,
        },
    ];
    level
}

fn entry(a: &[u8], b: &[u8], t: i32) -> ListEntry {
    ListEntry { name_1: a.to_vec(), name_2: b.to_vec(), time: t }
}

/// Offset of the first object record of a level with no polygons.
const FIRST_OBJECT: usize = 146;

#[test]
fn test_lev_default_values() {
    let level = Level::new();
    assert_eq!(level.version, Version::Elma);
    assert_eq!(level.link, 0);
    assert_eq!(level.integrity.map(f64::from_bits), [0.0_f64; 4]);
    assert_eq!(level.name, b"".to_vec());
    assert_eq!(level.lgr, b"default".to_vec());
    assert_eq!(level.ground, b"ground".to_vec());
    assert_eq!(level.sky, b"sky".to_vec());
}

#[test]
fn test_lev_load_level() {
    let bytes = sample_level().encode().unwrap();
    assert_eq!(&bytes[0..7], b"POT14\0\0");
    let level = Level::decode(&bytes).unwrap();
    assert_eq!(level.version, Version::Elma);
    assert_eq!(level.link, 1524269776);
    assert_eq!(
        level.integrity.map(f64::from_bits),
        [-1148375.210607791, 1164056.210607791, 1162467.210607791, 1162283.210607791]
    );
    assert_eq!(level.name, b"Rust test".to_vec());
    assert_eq!(level.lgr, b"default".to_vec());
    assert_eq!(level.ground, b"ground".to_vec());
    assert_eq!(level.sky, b"sky".to_vec());
    assert_eq!(level.polygons.len(), 2);
    assert_eq!(level.objects.len(), 8);
    assert_eq!(level.pictures.len(), 2);
}

#[test]
fn test_rec_default_values() {
    let rec = Rec::new();
    assert_eq!(rec.frame_count, 0);
    assert!(rec.frames.is_empty() && rec.events.is_empty());
}

#[test]
fn level_round_trip() {
    let mut level = sample_level();
    level.top10_single = vec![entry(b"alice", b"", 1234), entry(b"bob", b"", 99999)];
    level.top10_multi = vec![entry(b"carol", b"dave", 4321)];
    let bytes = level.encode().unwrap();
    let back = Level::decode(&bytes).unwrap();
    assert_eq!(back, level);
    let mut across = level.clone();
    across.version = Version::Across;
    let bytes = across.encode().unwrap();
    assert_eq!(&bytes[0..5], b"POT06");
    assert_eq!(Level::decode(&bytes).unwrap(), across);
}

#[test]
fn trailing_bytes_are_ignored() {
    let mut bytes = sample_level().encode().unwrap();
    bytes.extend_from_slice(&[1, 2, 3]);
    assert_eq!(Level::decode(&bytes).unwrap(), sample_level());
}

#[test]
fn empty_level_layout() {
    let bytes = Level::new().encode().unwrap();
    // header, three counts, two markers, leaderboard block
    assert_eq!(bytes.len(), 130 + 24 + 8 + 688);
    assert_eq!(f64::from_bits(u64::from_le_bytes(bytes[130..138].try_into().unwrap())), 0.4643643);
    assert_eq!(f64::from_bits(u64::from_le_bytes(bytes[146..154].try_into().unwrap())), 0.2345672);
    assert_eq!(u32::from_le_bytes(bytes[154..158].try_into().unwrap()), EOD);
    assert_eq!(u32::from_le_bytes(bytes[846..850].try_into().unwrap()), EOF);
}

#[test]
fn cipher_involution() {
    let block: Vec<u8> = (0..688).map(|i| (i * 7 % 256) as u8).collect();
    let once = crypt_top10(block.clone());
    assert_ne!(once, block);
    assert_eq!(crypt_top10(once), block);
}

#[test]
fn cipher_keystream() {
    let key = crypt_top10(vec![0u8; 688]);
    assert_eq!(&key[0..8], &[21, 5, 106, 25, 71, 109, 10, 81]);
    assert_eq!(&key[344..348], &[236, 48, 80, 77]);
}

#[test]
fn count_encoding_matches_float_arithmetic() {
    for off in [POLYGON_OFFSET, PICTURE_OFFSET] {
        let m = f64::from_bits(off);
        for c in 0..=10000usize {
            let bits = encode_count(c, off);
            assert_eq!(bits, (c as f64 + m).to_bits());
            assert_eq!(decode_count(bits, off), Ok(c));
        }
    }
}

#[test]
fn count_decoding_rounds() {
    let m = f64::from_bits(POLYGON_OFFSET);
    assert_eq!(decode_count((7.3 + m).to_bits(), POLYGON_OFFSET), Ok(7));
    assert_eq!(decode_count((6.6 + m).to_bits(), POLYGON_OFFSET), Ok(7));
    assert_eq!(decode_count(0.0f64.to_bits(), POLYGON_OFFSET), Ok(0));
    assert_eq!(decode_count((-0.0f64).to_bits(), POLYGON_OFFSET), Ok(0));
    assert_eq!(decode_count(1e-300f64.to_bits(), PICTURE_OFFSET), Ok(0));
    assert_eq!(decode_count((MAX_COUNT as f64 + m).to_bits(), POLYGON_OFFSET), Ok(MAX_COUNT));
}

#[test]
fn count_decoding_rejects() {
    let m = f64::from_bits(POLYGON_OFFSET);
    assert_eq!(decode_count(f64::NAN.to_bits(), POLYGON_OFFSET), Err(LevelError::InvalidCount));
    assert_eq!(decode_count(f64::INFINITY.to_bits(), POLYGON_OFFSET), Err(LevelError::InvalidCount));
    assert_eq!(decode_count((-1.0f64).to_bits(), POLYGON_OFFSET), Err(LevelError::InvalidCount));
    assert_eq!(decode_count((-5000.0f64).to_bits(), POLYGON_OFFSET), Err(LevelError::InvalidCount));
    assert_eq!(decode_count((65536.0 + m).to_bits(), POLYGON_OFFSET), Err(LevelError::InvalidCount));
    assert_eq!(decode_count(1e30f64.to_bits(), POLYGON_OFFSET), Err(LevelError::InvalidCount));
}

#[test]
fn marker_mismatch_end_of_data() {
    let level = sample_level();
    let mut bytes = level.encode().unwrap();
    let at = bytes.len() - 4 - 688 - 4;
    assert_eq!(u32::from_le_bytes(bytes[at..at + 4].try_into().unwrap()), EOD);
    bytes[at] ^= 0xFF;
    let actual = u32::from_le_bytes(bytes[at..at + 4].try_into().unwrap());
    assert_eq!(Level::decode(&bytes), Err(LevelError::MarkerMismatch { expected: EOD, actual }));
}

#[test]
fn marker_mismatch_end_of_file() {
    let mut bytes = sample_level().encode().unwrap();
    let at = bytes.len() - 4;
    bytes[at + 1] ^= 0x01;
    let actual = u32::from_le_bytes(bytes[at..at + 4].try_into().unwrap());
    assert_eq!(Level::decode(&bytes), Err(LevelError::MarkerMismatch { expected: EOF, actual }));
}

#[test]
fn leaderboard_count_bounds() {
    let mut block = vec![0u8; 344];
    block[0] = 11;
    assert_eq!(parse_top10(&block), Err(LevelError::InvalidLeaderboardCount(11)));
    block[0] = 0;
    assert_eq!(parse_top10(&block), Ok(vec![]));
    block[0..4].copy_from_slice(&(-1i32).to_le_bytes());
    assert_eq!(parse_top10(&block), Err(LevelError::InvalidLeaderboardCount(-1)));
}

#[test]
fn leaderboard_count_eleven_in_file() {
    let mut bytes = Level::new().encode().unwrap();
    let start = bytes.len() - 4 - 688;
    let mut plain = crypt_top10(bytes[start..start + 688].to_vec());
    plain[0] = 11;
    let enc = crypt_top10(plain);
    bytes[start..start + 688].copy_from_slice(&enc);
    assert_eq!(Level::decode(&bytes), Err(LevelError::InvalidLeaderboardCount(11)));
}

#[test]
fn leaderboard_entry_layout() {
    let mut block = vec![0u8; 344];
    block[0] = 2;
    block[8..12].copy_from_slice(&777i32.to_le_bytes());
    block[59..64].copy_from_slice(b"zed\0x");
    block[209..211].copy_from_slice(b"qq");
    let list = parse_top10(&block).unwrap();
    assert_eq!(list.len(), 2);
    assert_eq!(list[0].time, 0);
    assert_eq!(list[1].time, 777);
    assert_eq!(list[1].name_1, b"zed".to_vec());
    assert_eq!(list[1].name_2, b"qq".to_vec());
}

#[test]
fn animation_offset() {
    let mut level = Level::new();
    level.objects.push(Object {
        position: pos(0.0, 0.0),
        object_type: ObjectType::Apple,
        gravity: 0,
        animation: 1,
    });
    let bytes = level.encode().unwrap();
    let at = FIRST_OBJECT + 16 + 8;
    assert_eq!(&bytes[at..at + 4], &[0, 0, 0, 0]);
    let back = Level::decode(&bytes).unwrap();
    assert_eq!(back.objects[0].animation, 1);
}

#[test]
fn object_type_rejected() {
    let mut level = Level::new();
    level.objects.push(Object {
        position: pos(1.0, 2.0),
        object_type: ObjectType::Player,
        gravity: 0,
        animation: 1,
    });
    let mut bytes = level.encode().unwrap();
    let at = FIRST_OBJECT + 16;
    assert_eq!(&bytes[at..at + 4], &[4, 0, 0, 0]);
    bytes[at] = 5;
    assert_eq!(Level::decode(&bytes), Err(LevelError::UnrecognizedObjectType(5)));
}

#[test]
fn format_tag_rejected() {
    let mut bytes = Level::new().encode().unwrap();
    bytes[4] = b'5';
    assert_eq!(Level::decode(&bytes), Err(LevelError::UnrecognizedFormat));
}

#[test]
fn short_buffers_fail() {
    assert_eq!(Level::decode(b"POT"), Err(LevelError::UnexpectedEof));
    assert_eq!(Level::decode(b"POT14\0\0"), Err(LevelError::UnexpectedEof));
    let bytes = sample_level().encode().unwrap();
    assert_eq!(Level::decode(&bytes[..bytes.len() - 1]), Err(LevelError::UnexpectedEof));
    assert_eq!(Level::decode(&bytes[..200]), Err(LevelError::UnexpectedEof));
}

#[test]
fn text_stops_at_zero_byte() {
    let mut bytes = Level::new().encode().unwrap();
    bytes[43..50].copy_from_slice(b"ab\0junk");
    assert_eq!(Level::decode(&bytes).unwrap().name, b"ab".to_vec());
}

#[test]
fn encode_rejects_long_text() {
    let mut level = Level::new();
    level.name = vec![b'n'; 51];
    assert_eq!(level.encode(), Err(LevelError::FieldTooLong));
    level.name = vec![b'n'; 50];
    assert!(level.encode().is_ok());
    level.sky = b"0123456789".to_vec();
    assert_eq!(level.encode(), Err(LevelError::FieldTooLong));
    let mut level = Level::new();
    level.top10_multi = vec![entry(b"fifteen_letters", b"", 5)];
    assert_eq!(level.get_raw(), Err(LevelError::FieldTooLong));
}

#[test]
fn encode_rejects_long_leaderboard() {
    let mut level = Level::new();
    level.top10_single = (0..11).map(|i| entry(b"x", b"", i)).collect();
    assert_eq!(level.encode(), Err(LevelError::InvalidLeaderboardCount(11)));
}

#[test]
fn encode_rejects_too_many_objects() {
    let mut level = Level::new();
    let o = Object { position: pos(0.0, 0.0), object_type: ObjectType::Killer, gravity: 0, animation: 1 };
    level.objects = vec![o; MAX_COUNT + 1];
    assert_eq!(level.encode(), Err(LevelError::InvalidCount));
}

#[test]
fn negative_vertex_count_rejected() {
    let mut level = Level::new();
    level.polygons.push(Polygon::new());
    let mut bytes = level.encode().unwrap();
    bytes[142..146].copy_from_slice(&(-1i32).to_le_bytes());
    assert_eq!(Level::decode(&bytes), Err(LevelError::InvalidCount));
}
