//! Writing level files.
use crate::crypt::{crypt_spec, crypt_top10, TOP10_SIZE};
use crate::endian::{
    i32_at, i32_bytes, le_bytes_u32, lemma_i32_at, lemma_le_lengths, lemma_u64_at, put_bytes,
    put_i32, put_u16, put_u32, put_u64, u64_at,
};
use crate::error::ElmaError;
use crate::layout::{concat, lemma_concat_push, lemma_split, zeros};
use crate::level::{
    neg_bits, negate, Clip, GravityDirection, Level, LevelView, Object, ObjectType, Picture,
    PictureView, Polygon, PolygonView, Position, Top10Save, Version,
};
use crate::reader::{magic_elma, EOD, EOF};
use crate::text::{bytes_result, pad_spec, string_null_pad};
use crate::top10::{
    put_zeros, sort_by_time, sorted_by_time, top10_bytes, write_top10, BestTimes,
    BestTimesView,
};
use vstd::bytes::{spec_u16_to_le_bytes, spec_u64_to_le_bytes};
use vstd::prelude::*;

verus! {

/// The fields of a level file that are floating-point numbers computed
/// from the level, as bit patterns: the four integrity sums and the three
/// stored counts.
#[derive(Clone, Copy, Debug, PartialEq, Eq)]
pub struct FloatFields {
    /// The four integrity sums.
    pub integrity: [u64; 4],
    /// The number of polygons plus 0.4643643.
    pub polygon_count: u64,
    /// The number of objects plus 0.4643643.
    pub object_count: u64,
    /// The number of pictures plus 0.2345672.
    pub picture_count: u64,
}

/// The bytes of a vertex: x, then y negated.
pub open spec fn vertex_bytes(v: Position) -> Seq<u8> {
    spec_u64_to_le_bytes(v.x) + spec_u64_to_le_bytes(neg_bits(v.y))
}

/// The fields of the vertices of a polygon.
pub open spec fn vertex_chunks(vs: Seq<Position>) -> Seq<Seq<u8>> {
    vs.map_values(|v: Position| vertex_bytes(v))
}

/// The bytes of a polygon: grass flag, vertex count and vertices.
pub open spec fn polygon_bytes(pg: PolygonView) -> Seq<u8> {
    i32_bytes(
        if pg.grass {
            1i32
        } else {
            0i32
        },
    ) + i32_bytes(pg.vertices.len() as i32) + concat(vertex_chunks(pg.vertices))
}

/// The fields of a list of polygons.
pub open spec fn polygon_chunks(ps: Seq<PolygonView>) -> Seq<Seq<u8>> {
    ps.map_values(|p: PolygonView| polygon_bytes(p))
}

/// The number an object type is stored as.
pub open spec fn type_code(t: ObjectType) -> i32 {
    match t {
        ObjectType::Exit => 1,
        ObjectType::Apple { .. } => 2,
        ObjectType::Killer => 3,
        ObjectType::Player => 4,
    }
}

/// The number an object's gravity is stored as; zero for all but apples.
pub open spec fn gravity_code(t: ObjectType) -> i32 {
    match t {
        ObjectType::Apple { gravity: GravityDirection::Up, .. } => 1,
        ObjectType::Apple { gravity: GravityDirection::Down, .. } => 2,
        ObjectType::Apple { gravity: GravityDirection::Left, .. } => 3,
        ObjectType::Apple { gravity: GravityDirection::Right, .. } => 4,
        _ => 0,
    }
}

/// The number an object's animation is stored as: one less than an apple's
/// animation, zero for all but apples.
pub open spec fn animation_code(t: ObjectType) -> i32 {
    match t {
        ObjectType::Apple { animation, .. } => (animation - 1) as i32,
        _ => 0,
    }
}

/// No apple has the smallest `i32` as its animation, which the format's
/// writer cannot store one less of.
pub open spec fn animations_storable(os: Seq<Object>) -> bool {
    forall|k: int|
        0 <= k < os.len() ==> !(#[trigger] os[k].object_type matches ObjectType::Apple {
            animation,
            ..
        } && animation == i32::MIN)
}

/// The bytes of an object: x, y negated, type, gravity, animation.
pub open spec fn object_bytes(o: Object) -> Seq<u8> {
    spec_u64_to_le_bytes(o.position.x) + spec_u64_to_le_bytes(neg_bits(o.position.y)) + i32_bytes(
        type_code(o.object_type),
    ) + i32_bytes(gravity_code(o.object_type)) + i32_bytes(animation_code(o.object_type))
}

/// The fields of a list of objects.
pub open spec fn object_chunks(os: Seq<Object>) -> Seq<Seq<u8>> {
    os.map_values(|o: Object| object_bytes(o))
}

/// The number a clipping is stored as.
pub open spec fn clip_code(c: Clip) -> i32 {
    match c {
        Clip::Unclipped => 0,
        Clip::Ground => 1,
        Clip::Sky => 2,
    }
}

/// The bytes of a picture: name, texture and mask in fields of ten bytes,
/// x, y negated, distance and clipping; or the error of the first name that
/// does not fit.
pub open spec fn picture_bytes(pc: PictureView) -> Result<Seq<u8>, ElmaError> {
    match pad_spec(pc.name, 10) {
        Ok(a) => match pad_spec(pc.texture, 10) {
            Ok(b) => match pad_spec(pc.mask, 10) {
                Ok(c) => Ok(
                    a + b + c + spec_u64_to_le_bytes(pc.position.x) + spec_u64_to_le_bytes(
                        neg_bits(pc.position.y),
                    ) + i32_bytes(pc.distance) + i32_bytes(clip_code(pc.clip)),
                ),
                Err(e) => Err(e),
            },
            Err(e) => Err(e),
        },
        Err(e) => Err(e),
    }
}

/// The bytes of a list of pictures, or the error of the first that does
/// not fit.
pub open spec fn pictures_bytes(ps: Seq<PictureView>) -> Result<Seq<u8>, ElmaError>
    decreases ps.len(),
{
    if ps.len() == 0 {
        Ok(Seq::empty())
    } else {
        match pictures_bytes(ps.drop_last()) {
            Ok(a) => match picture_bytes(ps.last()) {
                Ok(b) => Ok(a + b),
                Err(e) => Err(e),
            },
            Err(e) => Err(e),
        }
    }
}

/// The encrypted best-times tables: the lists ordered by time, or empty
/// tables.
pub open spec fn top10_part(bt: BestTimesView, top10: Top10Save) -> Result<Seq<u8>, ElmaError> {
    match top10 {
        Top10Save::Yes => match top10_bytes(
            BestTimesView { single: sort_by_time(bt.single), multi: sort_by_time(bt.multi) },
        ) {
            Ok(t) => Ok(crypt_spec(t)),
            Err(e) => Err(e),
        },
        Top10Save::No => Ok(crypt_spec(zeros(688))),
    }
}

/// The bytes of a level file, or the error that stops writing it.
pub open spec fn level_bytes(l: LevelView, top10: Top10Save, ff: FloatFields) -> Result<
    Seq<u8>,
    ElmaError,
> {
    if l.version == Version::Across {
        Err(ElmaError::AcrossUnsupported)
    } else {
        match pad_spec(l.title, 51) {
            Err(e) => Err(e),
            Ok(title) => match pad_spec(l.lgr, 16) {
                Err(e) => Err(e),
                Ok(lgr) => match pad_spec(l.ground, 10) {
                    Err(e) => Err(e),
                    Ok(ground) => match pad_spec(l.sky, 10) {
                        Err(e) => Err(e),
                        Ok(sky) => match pictures_bytes(l.pictures) {
                            Err(e) => Err(e),
                            Ok(pictures) => match top10_part(l.best_times, top10) {
                                Err(e) => Err(e),
                                Ok(tables) => Ok(
                                    magic_elma() + spec_u16_to_le_bytes((l.link & 0xFFFF) as u16)
                                        + le_bytes_u32(l.link) + spec_u64_to_le_bytes(
                                        ff.integrity@[0],
                                    ) + spec_u64_to_le_bytes(ff.integrity@[1])
                                        + spec_u64_to_le_bytes(ff.integrity@[2])
                                        + spec_u64_to_le_bytes(ff.integrity@[3]) + title + lgr
                                        + ground + sky + spec_u64_to_le_bytes(ff.polygon_count)
                                        + concat(polygon_chunks(l.polygons))
                                        + spec_u64_to_le_bytes(ff.object_count) + concat(
                                        object_chunks(l.objects),
                                    ) + spec_u64_to_le_bytes(ff.picture_count) + pictures
                                        + i32_bytes(EOD) + tables + i32_bytes(EOF),
                                ),
                            },
                        },
                    },
                },
            },
        }
    }
}

/// Appends the bytes of a polygon.
fn put_polygon(buf: &mut Vec<u8>, poly: &Polygon)
    ensures
        final(buf)@ == old(buf)@ + polygon_bytes(poly@),
{
    put_i32(
        buf,
        if poly.grass {
            1
        } else {
            0
        },
    );
    put_i32(buf, poly.vertices.len() as i32);
    let ghost start = buf@;
    let ghost chunks = vertex_chunks(poly.vertices@);
    let mut j: usize = 0;
    assert(chunks.take(0) =~= Seq::<Seq<u8>>::empty());
    while j < poly.vertices.len()
        invariant
            j <= poly.vertices.len(),
            chunks == vertex_chunks(poly.vertices@),
            buf@ == start + concat(chunks.take(j as int)),
        decreases poly.vertices.len() - j,
    {
        let v = poly.vertices[j];
        put_u64(buf, v.x);
        put_u64(buf, negate(v.y));
        proof {
            assert(chunks.take(j + 1) =~= chunks.take(j as int).push(vertex_bytes(v)));
            lemma_concat_push(chunks.take(j as int), vertex_bytes(v));
        }
        j += 1;
    }
    assert(chunks.take(poly.vertices.len() as int) =~= chunks);
}

/// Appends the bytes of an object.
fn put_object(buf: &mut Vec<u8>, obj: &Object)
    requires
        !(obj.object_type matches ObjectType::Apple { animation, .. } && animation == i32::MIN),
    ensures
        final(buf)@ == old(buf)@ + object_bytes(*obj),
{
    put_u64(buf, obj.position.x);
    put_u64(buf, negate(obj.position.y));
    put_i32(
        buf,
        match obj.object_type {
            ObjectType::Exit => 1,
            ObjectType::Apple { .. } => 2,
            ObjectType::Killer => 3,
            ObjectType::Player => 4,
        },
    );
    put_i32(
        buf,
        match obj.object_type {
            ObjectType::Apple { gravity: GravityDirection::Up, .. } => 1,
            ObjectType::Apple { gravity: GravityDirection::Down, .. } => 2,
            ObjectType::Apple { gravity: GravityDirection::Left, .. } => 3,
            ObjectType::Apple { gravity: GravityDirection::Right, .. } => 4,
            _ => 0,
        },
    );
    put_i32(
        buf,
        match obj.object_type {
            ObjectType::Apple { animation: n, .. } => n - 1,
            _ => 0,
        },
    );
}

/// Appends the bytes of a picture, or gives the error of the first name
/// that does not fit.
fn put_picture(buf: &mut Vec<u8>, pic: &Picture) -> (r: Result<(), ElmaError>)
    ensures
        match r {
            Ok(()) => picture_bytes(pic@) matches Ok(b) && final(buf)@ == old(buf)@ + b,
            Err(e) => picture_bytes(pic@) == Err::<Seq<u8>, ElmaError>(e),
        },
{
    let name = match string_null_pad(pic.name.as_str(), 10) {
        Ok(v) => v,
        Err(e) => return Err(e),
    };
    let texture = match string_null_pad(pic.texture.as_str(), 10) {
        Ok(v) => v,
        Err(e) => return Err(e),
    };
    let mask = match string_null_pad(pic.mask.as_str(), 10) {
        Ok(v) => v,
        Err(e) => return Err(e),
    };
    put_bytes(buf, name.as_slice());
    put_bytes(buf, texture.as_slice());
    put_bytes(buf, mask.as_slice());
    put_u64(buf, pic.position.x);
    put_u64(buf, negate(pic.position.y));
    put_i32(buf, pic.distance);
    put_i32(
        buf,
        match pic.clip {
            Clip::Unclipped => 0,
            Clip::Ground => 1,
            Clip::Sky => 2,
        },
    );
    Ok(())
}

/// Once a picture does not fit, every longer list is the same error.
proof fn lemma_pictures_err(ps: Seq<PictureView>, i: int)
    requires
        0 <= i <= ps.len(),
        pictures_bytes(ps.take(i)) is Err,
    ensures
        pictures_bytes(ps) == pictures_bytes(ps.take(i)),
    decreases ps.len(),
{
    if i == ps.len() {
        assert(ps.take(i) =~= ps);
    } else {
        assert(ps.drop_last().take(i) =~= ps.take(i));
        lemma_pictures_err(ps.drop_last(), i);
    }
}

impl Level {
    /// The stored polygon count, then all polygons.
    fn write_polygons(&self, count_bits: u64) -> (r: Vec<u8>)
        ensures
            r@ == spec_u64_to_le_bytes(count_bits) + concat(polygon_chunks(self@.polygons)),
    {
        let mut buffer: Vec<u8> = Vec::new();
        put_u64(&mut buffer, count_bits);
        let ghost start = buffer@;
        let ghost chunks = polygon_chunks(self@.polygons);
        let mut i: usize = 0;
        assert(chunks.take(0) =~= Seq::<Seq<u8>>::empty());
        while i < self.polygons.len()
            invariant
                i <= self.polygons.len(),
                chunks == polygon_chunks(self@.polygons),
                buffer@ == start + concat(chunks.take(i as int)),
            decreases self.polygons.len() - i,
        {
            put_polygon(&mut buffer, &self.polygons[i]);
            proof {
                assert(chunks.take(i + 1) =~= chunks.take(i as int).push(
                    polygon_bytes(self.polygons@[i as int]@),
                ));
                lemma_concat_push(chunks.take(i as int), polygon_bytes(self.polygons@[i as int]@));
            }
            i += 1;
        }
        assert(chunks.take(self.polygons.len() as int) =~= chunks);
        buffer
    }

    /// The stored object count, then all objects.
    fn write_objects(&self, count_bits: u64) -> (r: Vec<u8>)
        requires
            animations_storable(self@.objects),
        ensures
            r@ == spec_u64_to_le_bytes(count_bits) + concat(object_chunks(self@.objects)),
    {
        let mut buffer: Vec<u8> = Vec::new();
        put_u64(&mut buffer, count_bits);
        let ghost start = buffer@;
        let ghost chunks = object_chunks(self@.objects);
        let mut i: usize = 0;
        assert(chunks.take(0) =~= Seq::<Seq<u8>>::empty());
        while i < self.objects.len()
            invariant
                i <= self.objects.len(),
                animations_storable(self@.objects),
                chunks == object_chunks(self@.objects),
                buffer@ == start + concat(chunks.take(i as int)),
            decreases self.objects.len() - i,
        {
            assert(!(self.objects@[i as int].object_type matches ObjectType::Apple {
                animation,
                ..
            } && animation == i32::MIN));
            put_object(&mut buffer, &self.objects[i]);
            proof {
                assert(chunks.take(i + 1) =~= chunks.take(i as int).push(
                    object_bytes(self.objects@[i as int]),
                ));
                lemma_concat_push(chunks.take(i as int), object_bytes(self.objects@[i as int]));
            }
            i += 1;
        }
        assert(chunks.take(self.objects.len() as int) =~= chunks);
        buffer
    }

    /// The stored picture count, then all pictures; or the error of the
    /// first name that does not fit.
    fn write_pictures(&self, count_bits: u64) -> (r: Result<Vec<u8>, ElmaError>)
        ensures
            match r {
                Ok(v) => pictures_bytes(self@.pictures) matches Ok(b) && v@
                    == spec_u64_to_le_bytes(count_bits) + b,
                Err(e) => pictures_bytes(self@.pictures) == Err::<Seq<u8>, ElmaError>(e),
            },
    {
        let mut buffer: Vec<u8> = Vec::new();
        put_u64(&mut buffer, count_bits);
        let ghost start = buffer@;
        let ghost ps = self@.pictures;
        let mut i: usize = 0;
        assert(ps.take(0) =~= Seq::<PictureView>::empty());
        while i < self.pictures.len()
            invariant
                i <= self.pictures.len(),
                ps == self@.pictures,
                pictures_bytes(ps.take(i as int)) matches Ok(b) && buffer@ == start + b,
            decreases self.pictures.len() - i,
        {
            assert(ps.take(i + 1).drop_last() =~= ps.take(i as int));
            assert(ps.take(i + 1).last() == self.pictures@[i as int]@);
            match put_picture(&mut buffer, &self.pictures[i]) {
                Ok(()) => {},
                Err(e) => {
                    proof {
                        lemma_pictures_err(ps, i + 1);
                    }
                    return Err(e);
                },
            }
            i += 1;
        }
        assert(ps.take(self.pictures.len() as int) =~= ps);
        Ok(buffer)
    }

    /// Converts all struct fields into raw binary form and returns the raw
    /// data. `floats` holds the integrity sums and the stored counts;
    /// `top_10` says whether the best times are kept (ordered by time) or
    /// written as empty tables.
    #[verifier::rlimit(40)]
    pub fn to_bytes(&self, top_10: Top10Save, floats: &FloatFields) -> (r: Result<
        Vec<u8>,
        ElmaError,
    >)
        requires
            animations_storable(self@.objects),
        ensures
            bytes_result(r) == level_bytes(self@, top_10, *floats),
    {
        match self.version {
            Version::Elma => {},
            Version::Across => return Err(ElmaError::AcrossUnsupported),
        }
        let title = match string_null_pad(self.title.as_str(), 51) {
            Ok(v) => v,
            Err(e) => return Err(e),
        };
        let lgr = match string_null_pad(self.lgr.as_str(), 16) {
            Ok(v) => v,
            Err(e) => return Err(e),
        };
        let ground = match string_null_pad(self.ground.as_str(), 10) {
            Ok(v) => v,
            Err(e) => return Err(e),
        };
        let sky = match string_null_pad(self.sky.as_str(), 10) {
            Ok(v) => v,
            Err(e) => return Err(e),
        };
        let polygons = self.write_polygons(floats.polygon_count);
        let objects = self.write_objects(floats.object_count);
        let pictures = match self.write_pictures(floats.picture_count) {
            Ok(v) => v,
            Err(e) => return Err(e),
        };
        let tables = match top_10 {
            Top10Save::Yes => {
                let best_times = BestTimes {
                    single: sorted_by_time(&self.best_times.single),
                    multi: sorted_by_time(&self.best_times.multi),
                };
                let top10_bytes = match write_top10(&best_times) {
                    Ok(v) => v,
                    Err(e) => return Err(e),
                };
                crypt_top10(top10_bytes.as_slice())
            },
            Top10Save::No => {
                let mut empty: Vec<u8> = Vec::new();
                put_zeros(&mut empty, TOP10_SIZE);
                assert(empty@ =~= zeros(688));
                crypt_top10(empty.as_slice())
            },
        };
        let mut buffer: Vec<u8> = Vec::new();
        buffer.push(80u8);
        buffer.push(79u8);
        buffer.push(84u8);
        buffer.push(49u8);
        buffer.push(52u8);
        assert(buffer@ =~= magic_elma());
        put_u16(&mut buffer, #[verifier::truncate] ((self.link & 0xFFFF) as u16));
        put_u32(&mut buffer, self.link);
        put_u64(&mut buffer, floats.integrity[0]);
        put_u64(&mut buffer, floats.integrity[1]);
        put_u64(&mut buffer, floats.integrity[2]);
        put_u64(&mut buffer, floats.integrity[3]);
        put_bytes(&mut buffer, title.as_slice());
        put_bytes(&mut buffer, lgr.as_slice());
        put_bytes(&mut buffer, ground.as_slice());
        put_bytes(&mut buffer, sky.as_slice());
        put_bytes(&mut buffer, polygons.as_slice());
        put_bytes(&mut buffer, objects.as_slice());
        put_bytes(&mut buffer, pictures.as_slice());
        put_i32(&mut buffer, EOD);
        put_bytes(&mut buffer, tables.as_slice());
        put_i32(&mut buffer, EOF);
        assert(buffer@ =~= level_bytes(self@, top_10, *floats)->Ok_0);
        Ok(buffer)
    }
}

/// The record an object is written as: 28 bytes, x at 0, y negated at 8,
/// the type at 16 (1 exit, 2 apple, 3 killer, 4 player), the gravity at 20
/// (0 none, 1 up, 2 down, 3 left, 4 right; 0 for all but apples) and at 24
/// the animation less one (0 for all but apples).
pub proof fn lemma_object_record(o: Object)
    ensures
        object_bytes(o).len() == 28,
        u64_at(object_bytes(o), 0) == o.position.x,
        u64_at(object_bytes(o), 8) == neg_bits(o.position.y),
        i32_at(object_bytes(o), 16) == match o.object_type {
            ObjectType::Exit => 1i32,
            ObjectType::Apple { .. } => 2i32,
            ObjectType::Killer => 3i32,
            ObjectType::Player => 4i32,
        },
        i32_at(object_bytes(o), 20) == match o.object_type {
            ObjectType::Apple { gravity: GravityDirection::NoChange, .. } => 0i32,
            ObjectType::Apple { gravity: GravityDirection::Up, .. } => 1i32,
            ObjectType::Apple { gravity: GravityDirection::Down, .. } => 2i32,
            ObjectType::Apple { gravity: GravityDirection::Left, .. } => 3i32,
            ObjectType::Apple { gravity: GravityDirection::Right, .. } => 4i32,
            _ => 0i32,
        },
        i32_at(object_bytes(o), 24) == match o.object_type {
            ObjectType::Apple { animation, .. } => (animation - 1) as i32,
            _ => 0i32,
        },
{
    lemma_le_lengths();
    let x = spec_u64_to_le_bytes(o.position.x);
    let y = spec_u64_to_le_bytes(neg_bits(o.position.y));
    let t = i32_bytes(type_code(o.object_type));
    let g = i32_bytes(gravity_code(o.object_type));
    let a = i32_bytes(animation_code(o.object_type));
    assert(x.len() == 8 && y.len() == 8 && t.len() == 4 && g.len() == 4 && a.len() == 4);
    let b = object_bytes(o);
    assert(b.subrange(0, 28) =~= b);
    lemma_split(b, 0, x + y + t + g, a);
    lemma_split(b, 0, x + y + t, g);
    lemma_split(b, 0, x + y, t);
    lemma_split(b, 0, x, y);
    lemma_u64_at(b, 0, o.position.x);
    lemma_u64_at(b, 8, neg_bits(o.position.y));
    lemma_i32_at(b, 16, type_code(o.object_type));
    lemma_i32_at(b, 20, gravity_code(o.object_type));
    lemma_i32_at(b, 24, animation_code(o.object_type));
}

/// The record a picture is written as, where its names fit: 54 bytes, name,
/// texture and mask in fields of ten bytes at 0, 10 and 20, x at 30, y
/// negated at 38, the distance at 46 and the clipping at 50 (0 unclipped,
/// 1 ground, 2 sky).
pub proof fn lemma_picture_record(pc: PictureView)
    requires
        picture_bytes(pc) is Ok,
    ensures
        ({
            let r = picture_bytes(pc)->Ok_0;
            &&& r.len() == 54
            &&& r.subrange(0, 10) == pad_spec(pc.name, 10)->Ok_0
            &&& r.subrange(10, 20) == pad_spec(pc.texture, 10)->Ok_0
            &&& r.subrange(20, 30) == pad_spec(pc.mask, 10)->Ok_0
            &&& u64_at(r, 30) == pc.position.x
            &&& u64_at(r, 38) == neg_bits(pc.position.y)
            &&& i32_at(r, 46) == pc.distance
            &&& i32_at(r, 50) == match pc.clip {
                Clip::Unclipped => 0i32,
                Clip::Ground => 1i32,
                Clip::Sky => 2i32,
            }
        }),
{
    lemma_le_lengths();
    let n = pad_spec(pc.name, 10)->Ok_0;
    let t = pad_spec(pc.texture, 10)->Ok_0;
    let m = pad_spec(pc.mask, 10)->Ok_0;
    let x = spec_u64_to_le_bytes(pc.position.x);
    let y = spec_u64_to_le_bytes(neg_bits(pc.position.y));
    let d = i32_bytes(pc.distance);
    let c = i32_bytes(clip_code(pc.clip));
    assert(n.len() == 10 && t.len() == 10 && m.len() == 10);
    assert(x.len() == 8 && y.len() == 8 && d.len() == 4 && c.len() == 4);
    let r = picture_bytes(pc)->Ok_0;
    assert(r.subrange(0, 54) =~= r);
    lemma_split(r, 0, n + t + m + x + y + d, c);
    lemma_split(r, 0, n + t + m + x + y, d);
    lemma_split(r, 0, n + t + m + x, y);
    lemma_split(r, 0, n + t + m, x);
    lemma_split(r, 0, n + t, m);
    lemma_split(r, 0, n, t);
    lemma_u64_at(r, 30, pc.position.x);
    lemma_u64_at(r, 38, neg_bits(pc.position.y));
    lemma_i32_at(r, 46, pc.distance);
    lemma_i32_at(r, 50, clip_code(pc.clip));
}

} // verus!
