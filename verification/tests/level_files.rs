use elma::crypt::crypt_top10;
use elma::endian::{get_i32, get_u32, get_u64, put_i32, put_u16, put_u32, put_u64};
use elma::error::ElmaError;
use elma::level::{
    negate, Clip, GravityDirection, Level, Object, ObjectType, Picture, Polygon, Position,
    Top10Save, Version,
};
use elma::reader::{CountField, LevelParse};
use elma::text::{string_null_pad, trim_string};
use elma::top10::{parse_top10, sorted_by_time, write_top10, BestTimes, TimeEntry};
use elma::topology::TopologyError;
use elma::writer::FloatFields;

fn count_bits(n: usize, offset: f64) -> u64 {
    (n as f64 + offset).to_bits()
}

fn floats_for(level: &Level) -> FloatFields {
    FloatFields {
        integrity: [1.5f64.to_bits(), 2.5f64.to_bits(), 3.5f64.to_bits(), 4.5f64.to_bits()],
        polygon_count: count_bits(level.polygons.len(), 0.464_364_3),
        object_count: count_bits(level.objects.len(), 0.464_364_3),
        picture_count: count_bits(level.pictures.len(), 0.234_567_2),
    }
}

fn decode(field: CountField, bits: u64) -> usize {
    let offset = match field {
        CountField::Polygons | CountField::Objects => 0.464_364_3,
        CountField::Pictures => 0.234_567_2,
    };
    (f64::from_bits(bits) - offset).round() as usize
}

fn read_level(bytes: &[u8]) -> LevelParse {
    let mut counts: Vec<usize> = vec![];
    loop {
        match Level::from_bytes(bytes, &counts) {
            LevelParse::NeedCount(field, bits) => counts.push(decode(field, bits)),
            other => return other,
        }
    }
}

fn entry(a: &str, b: &str, time: i32) -> TimeEntry {
    TimeEntry::new((a.to_string(), b.to_string()), time)
}

fn sample_level() -> Level {
    let mut level = Level::new(0x1234_5678);
    level.title = "Test level".to_string();
    level.polygons.push(Polygon {
        grass: true,
        vertices: vec![
            Position::new(1.0f64.to_bits(), (-2.0f64).to_bits()),
            Position::new(3.25f64.to_bits(), 4.0f64.to_bits()),
            Position::new(0.5f64.to_bits(), 0.0f64.to_bits()),
        ],
    });
    level.objects.push(Object {
        position: Position::new(5.0f64.to_bits(), 1.0f64.to_bits()),
        object_type: ObjectType::Apple { gravity: GravityDirection::Left, animation: 3 },
    });
    level.objects.push(Object {
        position: Position::new(6.0f64.to_bits(), 1.0f64.to_bits()),
        object_type: ObjectType::Killer,
    });
    let mut picture = Picture::new();
    picture.clip = Clip::Ground;
    picture.position = Position::new(7.0f64.to_bits(), 2.0f64.to_bits());
    level.pictures.push(picture);
    level.best_times.single = vec![entry("bob", "", 3000), entry("amy", "", 1000), entry("cid", "", 2000)];
    level.best_times.multi = vec![entry("a", "b", 5000)];
    level
}

#[test]
fn crypt_keystream_first_bytes() {
    let out = crypt_top10(&[0u8; 8]);
    assert_eq!(out, vec![21, 5, 106, 183, 137, 237, 89, 196]);
}

#[test]
fn crypt_twice_gives_data_back() {
    let data: Vec<u8> = (0..700u32).map(|i| (i * 7 % 256) as u8).collect();
    let once = crypt_top10(&data);
    assert_ne!(once, data);
    assert_eq!(once[688..], data[688..]);
    assert_eq!(crypt_top10(&once), data);
}

#[test]
fn trim_string_stops_at_zero() {
    assert_eq!(trim_string(b"abc\0\0def").unwrap(), "abc");
    assert_eq!(trim_string(b"full").unwrap(), "full");
    assert_eq!(trim_string(&[0xff, 0xfe, 0]), Err(ElmaError::InvalidUtf8));
}

#[test]
fn string_null_pad_fills_with_zeros() {
    assert_eq!(string_null_pad("ab", 4).unwrap(), vec![97, 98, 0, 0]);
    assert_eq!(string_null_pad("abcd", 4).unwrap(), vec![97, 98, 99, 100]);
    assert_eq!(string_null_pad("abcdef", 4), Err(ElmaError::PaddingTooShort(2)));
}

#[test]
fn pad_then_trim_gives_name_back() {
    let field = string_null_pad("grass", 10).unwrap();
    assert_eq!(trim_string(&field).unwrap(), "grass");
}

#[test]
fn little_endian_reads_and_writes() {
    let mut buf = vec![];
    put_u16(&mut buf, 0x0102);
    put_u32(&mut buf, 0x0304_0506);
    put_i32(&mut buf, -2);
    put_u64(&mut buf, 0x0708_090a_0b0c_0d0e);
    assert_eq!(buf, vec![2, 1, 6, 5, 4, 3, 0xfe, 0xff, 0xff, 0xff, 14, 13, 12, 11, 10, 9, 8, 7]);
    assert_eq!(get_u32(&buf, 2), Some(0x0304_0506));
    assert_eq!(get_i32(&buf, 6), Some(-2));
    assert_eq!(get_u64(&buf, 10), Some(0x0708_090a_0b0c_0d0e));
    assert_eq!(get_u64(&buf, 11), None);
}

#[test]
fn negate_flips_sign() {
    assert_eq!(f64::from_bits(negate(2.5f64.to_bits())), -2.5);
    assert_eq!(negate(negate(7)), 7);
}

#[test]
fn sorted_by_time_is_stable() {
    let entries = vec![entry("c", "", 30), entry("a", "", 10), entry("d", "", 30), entry("b", "", 20)];
    let sorted = sorted_by_time(&entries);
    let names: Vec<&str> = sorted.iter().map(|e| e.names.0.as_str()).collect();
    assert_eq!(names, vec!["a", "b", "c", "d"]);
}

#[test]
fn top10_tables_round_trip() {
    let mut single = vec![];
    for i in 0..12 {
        single.push(entry(&format!("p{}", i), "", 100 + i));
    }
    let best = BestTimes { single, multi: vec![entry("x", "y", 7)] };
    let bytes = write_top10(&best).unwrap();
    assert_eq!(bytes.len(), 688);
    assert_eq!(get_u32(&bytes, 0), Some(10));
    let single = parse_top10(&bytes[0..344]).unwrap();
    assert_eq!(single.len(), 10);
    assert_eq!(single[9], entry("p9", "", 109));
    let multi = parse_top10(&bytes[344..688]).unwrap();
    assert_eq!(multi, vec![entry("x", "y", 7)]);
}

#[test]
fn top10_name_too_long() {
    let best = BestTimes { single: vec![entry("a name of twenty chars", "", 1)], multi: vec![] };
    assert_eq!(write_top10(&best), Err(ElmaError::PaddingTooShort(7)));
}

#[test]
fn top10_count_too_large() {
    let mut table = vec![0u8; 344];
    table[0] = 11;
    assert_eq!(parse_top10(&table), Err(ElmaError::InvalidTop10Count(11)));
}

#[test]
fn new_level_contents() {
    let level = Level::new(0x1234_5678);
    assert_eq!(level.version, Version::Elma);
    assert_eq!(level.link, 0x1234_5678);
    assert_eq!(level.lgr, "default");
    assert_eq!(level.ground, "ground");
    assert_eq!(level.sky, "sky");
    assert_eq!(level.polygons.len(), 1);
    assert_eq!(level.polygons[0].vertices[2], Position::new(15.0f64.to_bits(), 7.0f64.to_bits()));
    assert!(level.objects[0].is_player());
    assert_eq!(level.objects[1].object_type, ObjectType::Exit);
    assert_eq!(f64::from_bits(level.objects[0].position.y), 0.4);
    assert_eq!(level.check_objects(), Ok(()));
    assert_eq!(level.check_vertex_count(), Ok(()));
}

#[test]
fn generate_link_keeps_the_rest() {
    let mut level = sample_level();
    let before = level.clone();
    level.generate_link(99);
    assert_eq!(level.link, 99);
    level.link = before.link;
    assert_eq!(level, before);
}

#[test]
fn object_kinds() {
    let apple = Object::new();
    assert!(apple.is_apple());
    assert!(!apple.is_player());
    assert_eq!(apple.object_type, ObjectType::Apple { gravity: GravityDirection::NoChange, animation: 1 });
    let picture = Picture::new();
    assert_eq!(picture.name, "barrel");
    assert_eq!(picture.distance, 600);
    assert_eq!(picture.clip, Clip::Sky);
    assert!(Polygon::new().vertices.is_empty());
}

#[test]
fn level_write_then_read() {
    let level = sample_level();
    let floats = floats_for(&level);
    let bytes = level.to_bytes(Top10Save::Yes, &floats).unwrap();
    assert_eq!(&bytes[0..5], b"POT14");
    match read_level(&bytes) {
        LevelParse::Done(read) => {
            let mut expected = level.clone();
            expected.integrity = floats.integrity;
            expected.best_times.single =
                vec![entry("amy", "", 1000), entry("cid", "", 2000), entry("bob", "", 3000)];
            assert_eq!(read, expected);
        }
        other => panic!("unexpected {:?}", other),
    }
}

#[test]
fn level_without_top10() {
    let level = sample_level();
    let floats = floats_for(&level);
    let bytes = level.to_bytes(Top10Save::No, &floats).unwrap();
    match read_level(&bytes) {
        LevelParse::Done(read) => {
            assert!(read.best_times.single.is_empty());
            assert!(read.best_times.multi.is_empty());
            assert_eq!(read.polygons, level.polygons);
        }
        other => panic!("unexpected {:?}", other),
    }
}

#[test]
fn reader_asks_for_counts() {
    let level = sample_level();
    let floats = floats_for(&level);
    let bytes = level.to_bytes(Top10Save::No, &floats).unwrap();
    assert_eq!(
        Level::from_bytes(&bytes, &[]),
        LevelParse::NeedCount(CountField::Polygons, floats.polygon_count)
    );
    assert_eq!(
        Level::from_bytes(&bytes, &[2]),
        LevelParse::NeedCount(CountField::Objects, floats.object_count)
    );
    assert_eq!(
        Level::from_bytes(&bytes, &[2, 4]),
        LevelParse::NeedCount(CountField::Pictures, floats.picture_count)
    );
}

#[test]
fn reader_errors() {
    assert_eq!(Level::from_bytes(b"POT", &[]), LevelParse::OutOfBounds);
    assert_eq!(Level::from_bytes(b"POT06xx", &[]), LevelParse::Failed(ElmaError::AcrossUnsupported));
    assert_eq!(Level::from_bytes(b"XYZ14xx", &[]), LevelParse::Failed(ElmaError::InvalidLevelFile));
    assert_eq!(Level::from_bytes(b"POT14x", &[]), LevelParse::OutOfBounds);
    assert_eq!(Level::from_bytes(b"POT14xxxx", &[]), LevelParse::Failed(ElmaError::UnexpectedEof));
    let level = sample_level();
    let bytes = level.to_bytes(Top10Save::No, &floats_for(&level)).unwrap();
    assert_eq!(Level::from_bytes(&bytes[0..100], &[]), LevelParse::OutOfBounds);
    assert_eq!(Level::from_bytes(&bytes[0..135], &[]), LevelParse::Failed(ElmaError::UnexpectedEof));
    assert_eq!(Level::from_bytes(&bytes[0..bytes.len() - 2], &[2, 4, 1]), LevelParse::Failed(ElmaError::UnexpectedEof));
    assert_eq!(Level::from_bytes(&bytes, &[2, 4, 1000]), LevelParse::OutOfBounds);
    let mut broken = bytes.clone();
    let last = broken.len() - 1;
    broken[last] ^= 1;
    assert_eq!(Level::from_bytes(&broken, &[2, 4, 1]), LevelParse::Failed(ElmaError::EOFMismatch));
}

#[test]
fn reader_rejects_bad_object_values() {
    let level = sample_level();
    let bytes = level.to_bytes(Top10Save::No, &floats_for(&level)).unwrap();
    // The objects follow the header (130 bytes), the polygon count (8) and the
    // polygons: 8 + 4 * 16 and 8 + 3 * 16 bytes, then the object count (8).
    let first_object = 130 + 8 + 72 + 56 + 8;
    let mut bad_gravity = bytes.clone();
    bad_gravity[first_object + 20] = 9;
    assert_eq!(Level::from_bytes(&bad_gravity, &[2, 4, 1]), LevelParse::Failed(ElmaError::InvalidGravity(9)));
    let mut bad_type = bytes.clone();
    bad_type[first_object + 16] = 7;
    assert_eq!(Level::from_bytes(&bad_type, &[2, 4, 1]), LevelParse::Failed(ElmaError::InvalidObject(7)));
}

#[test]
fn writer_errors() {
    let mut level = sample_level();
    level.version = Version::Across;
    assert_eq!(level.to_bytes(Top10Save::No, &floats_for(&level)), Err(ElmaError::AcrossUnsupported));
    let mut level = sample_level();
    level.sky = "a very long sky".to_string();
    assert_eq!(level.to_bytes(Top10Save::No, &floats_for(&level)), Err(ElmaError::PaddingTooShort(5)));
}

#[test]
fn topology_errors() {
    let mut level = Level::new(0x1234_5678);
    level.objects.push(Object { position: Position::new(0, 0), object_type: ObjectType::Player });
    assert_eq!(level.check_objects(), Err(TopologyError::InvalidPlayerCount(1)));
    level.objects.push(Object { position: Position::new(0, 0), object_type: ObjectType::Player });
    assert_eq!(level.check_objects(), Err(TopologyError::InvalidPlayerCount(2)));
    let mut level = Level::new(0x1234_5678);
    level.objects.remove(0);
    assert_eq!(level.check_objects(), Err(TopologyError::InvalidPlayerCount(0)));
    let mut level = Level::new(0x1234_5678);
    level.objects.remove(1);
    assert_eq!(level.check_objects(), Err(TopologyError::MissingExit));
    let mut level = Level::new(0x1234_5678);
    for _ in 0..251 {
        level.objects.push(Object::new());
    }
    assert_eq!(level.check_objects(), Err(TopologyError::MaxObjects(1)));
    let mut level = Level::new(0x1234_5678);
    level.polygons.push(Polygon::new());
    let square = level.polygons[0].clone();
    level.polygons.push(square);
    level.polygons.push(Polygon::new());
    assert_eq!(level.check_vertex_count(), Err(TopologyError::InvalidVertexCount(vec![1, 3])));
}
