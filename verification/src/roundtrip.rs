//! What a written level file reads back as.
use crate::crypt::{crypt_spec, lemma_crypt_involution};
use crate::endian::{
    i32_bytes, le_bytes_u32, lemma_i32_at, lemma_le_lengths, lemma_u32_at, lemma_u32_le_zero,
    lemma_u64_at, u32_at, u64_at,
};
use crate::error::ElmaError;
use crate::layout::{concat, lemma_concat_fixed, lemma_split, lemma_sub_field, zeros};
use crate::level::{
    lemma_neg_neg, neg_bits, LevelView, Object, ObjectType, PictureView, PolygonView, Top10Save,
    Version,
};
use crate::reader::{
    header_at, magic_elma, object_at, objects_at, parse_level_spec, picture_at, pictures_at,
    polygon_at, polygons_at, tail_section, vertex_at, vertex_count, CountField, HeaderView,
    LevelParseView, Step, EOD, EOF,
};
use crate::text::{fits_field, lemma_pad_then_trim, pad_spec};
use crate::top10::{
    lemma_table_roundtrip, names_fit, shown_count, sort_by_time, table_bytes, top10_bytes,
    BestTimesView,
};
use crate::writer::{
    animation_code, animations_storable, clip_code, gravity_code, level_bytes, object_bytes,
    object_chunks, picture_bytes, pictures_bytes, polygon_bytes, polygon_chunks, top10_part,
    type_code, vertex_bytes, vertex_chunks, FloatFields,
};
use vstd::bytes::{spec_u16_to_le_bytes, spec_u64_to_le_bytes};
use vstd::prelude::*;

verus! {

/// The header a level is written with.
pub open spec fn header_bytes(l: LevelView, ff: FloatFields) -> Seq<u8> {
    magic_elma() + spec_u16_to_le_bytes((l.link & 0xFFFF) as u16) + le_bytes_u32(l.link)
        + spec_u64_to_le_bytes(ff.integrity@[0]) + spec_u64_to_le_bytes(ff.integrity@[1])
        + spec_u64_to_le_bytes(ff.integrity@[2]) + spec_u64_to_le_bytes(ff.integrity@[3])
        + pad_spec(l.title, 51)->Ok_0 + pad_spec(l.lgr, 16)->Ok_0 + pad_spec(l.ground, 10)->Ok_0
        + pad_spec(l.sky, 10)->Ok_0
}

/// A written header reads back as the level's link, the given integrity
/// sums and the level's names.
proof fn lemma_header(b: Seq<u8>, l: LevelView, ff: FloatFields)
    requires
        fits_field(l.title, 51),
        fits_field(l.lgr, 16),
        fits_field(l.ground, 10),
        fits_field(l.sky, 10),
        b.len() >= 130,
        b.subrange(0, 130) == header_bytes(l, ff),
    ensures
        header_bytes(l, ff).len() == 130,
        header_at(b) == Step::Next(
            HeaderView {
                link: l.link,
                integrity: ff.integrity@,
                title: l.title,
                lgr: l.lgr,
                ground: l.ground,
                sky: l.sky,
            },
            130,
        ),
{
    reveal(header_at);
    lemma_pad_then_trim(l.title, 51);
    lemma_pad_then_trim(l.lgr, 16);
    lemma_pad_then_trim(l.ground, 10);
    lemma_pad_then_trim(l.sky, 10);
    lemma_le_lengths();
    assert(spec_u16_to_le_bytes((l.link & 0xFFFF) as u16).len() == 2);
    assert(le_bytes_u32(l.link).len() == 4);
    assert(spec_u64_to_le_bytes(ff.integrity@[0]).len() == 8);
    assert(spec_u64_to_le_bytes(ff.integrity@[1]).len() == 8);
    assert(spec_u64_to_le_bytes(ff.integrity@[2]).len() == 8);
    assert(spec_u64_to_le_bytes(ff.integrity@[3]).len() == 8);
    let h1 = magic_elma();
    let h2 = h1 + spec_u16_to_le_bytes((l.link & 0xFFFF) as u16);
    let h3 = h2 + le_bytes_u32(l.link);
    let h4 = h3 + spec_u64_to_le_bytes(ff.integrity@[0]);
    let h5 = h4 + spec_u64_to_le_bytes(ff.integrity@[1]);
    let h6 = h5 + spec_u64_to_le_bytes(ff.integrity@[2]);
    let h7 = h6 + spec_u64_to_le_bytes(ff.integrity@[3]);
    let h8 = h7 + pad_spec(l.title, 51)->Ok_0;
    let h9 = h8 + pad_spec(l.lgr, 16)->Ok_0;
    let h10 = h9 + pad_spec(l.ground, 10)->Ok_0;
    assert(header_bytes(l, ff) == h10 + pad_spec(l.sky, 10)->Ok_0);
    lemma_split(b, 0, h10, pad_spec(l.sky, 10)->Ok_0);
    lemma_split(b, 0, h9, pad_spec(l.ground, 10)->Ok_0);
    lemma_split(b, 0, h8, pad_spec(l.lgr, 16)->Ok_0);
    lemma_split(b, 0, h7, pad_spec(l.title, 51)->Ok_0);
    lemma_split(b, 0, h6, spec_u64_to_le_bytes(ff.integrity@[3]));
    lemma_split(b, 0, h5, spec_u64_to_le_bytes(ff.integrity@[2]));
    lemma_split(b, 0, h4, spec_u64_to_le_bytes(ff.integrity@[1]));
    lemma_split(b, 0, h3, spec_u64_to_le_bytes(ff.integrity@[0]));
    lemma_split(b, 0, h2, le_bytes_u32(l.link));
    lemma_split(b, 0, h1, spec_u16_to_le_bytes((l.link & 0xFFFF) as u16));
    lemma_u32_at(b, 7, l.link);
    lemma_u64_at(b, 11, ff.integrity@[0]);
    lemma_u64_at(b, 19, ff.integrity@[1]);
    lemma_u64_at(b, 27, ff.integrity@[2]);
    lemma_u64_at(b, 35, ff.integrity@[3]);
    assert(seq![u64_at(b, 11), u64_at(b, 19), u64_at(b, 27), u64_at(b, 35)] =~= ff.integrity@);
}

/// A written polygon reads back unchanged.
proof fn lemma_polygon(b: Seq<u8>, q: int, pg: PolygonView)
    requires
        0 <= q,
        pg.vertices.len() <= i32::MAX,
        q + polygon_bytes(pg).len() <= b.len(),
        b.subrange(q, q + polygon_bytes(pg).len()) == polygon_bytes(pg),
    ensures
        polygon_bytes(pg).len() == 8 + 16 * pg.vertices.len(),
        polygon_at(b, q) == Step::Next(pg, q + polygon_bytes(pg).len()),
{
    lemma_le_lengths();
    let n = pg.vertices.len();
    let code: i32 = if pg.grass {
        1
    } else {
        0
    };
    let g = i32_bytes(code);
    let c = i32_bytes(n as i32);
    let chunks = vertex_chunks(pg.vertices);
    let vs = concat(chunks);
    assert forall|j: int| 0 <= j < chunks.len() implies (#[trigger] chunks[j]).len() == 16 by {
        assert(chunks[j] == vertex_bytes(pg.vertices[j]));
        assert(spec_u64_to_le_bytes(pg.vertices[j].x).len() == 8);
        assert(spec_u64_to_le_bytes(neg_bits(pg.vertices[j].y)).len() == 8);
    }
    lemma_concat_fixed(chunks, 16);
    assert(g.len() == 4 && c.len() == 4);
    lemma_split(b, q, g + c, vs);
    lemma_split(b, q, g, c);
    lemma_i32_at(b, q, code);
    lemma_i32_at(b, q + 4, n as i32);
    assert(vertex_count(n as i32) == n);
    assert forall|i: int| 0 <= i < n implies vertex_at(b, q + 8 + 16 * i) == pg.vertices[i] by {
        let v = pg.vertices[i];
        lemma_sub_field(b, q + 8, vs, 16 * i, 16);
        assert(chunks[i] == vertex_bytes(v));
        assert(spec_u64_to_le_bytes(v.x).len() == 8);
        assert(spec_u64_to_le_bytes(neg_bits(v.y)).len() == 8);
        lemma_split(
            b,
            q + 8 + 16 * i,
            spec_u64_to_le_bytes(v.x),
            spec_u64_to_le_bytes(neg_bits(v.y)),
        );
        lemma_u64_at(b, q + 8 + 16 * i, v.x);
        lemma_u64_at(b, q + 16 + 16 * i, neg_bits(v.y));
        lemma_neg_neg(v.y);
    }
    assert(Seq::new(n, |i: int| vertex_at(b, q + 8 + 16 * i)) =~= pg.vertices);
}

/// Polygons read back unchanged from where they were written: found at `p`
/// in `b`, the bytes that `write_polygons` gives after the stored count read
/// back, as many as there are, as the same polygons, and reading ends just
/// after them. Each polygon has at most `i32::MAX` vertices, the most its
/// stored vertex count holds.
pub proof fn lemma_polygons(b: Seq<u8>, p: int, ps: Seq<PolygonView>)
    requires
        0 <= p,
        forall|k: int| 0 <= k < ps.len() ==> (#[trigger] ps[k]).vertices.len() <= i32::MAX,
        p + concat(polygon_chunks(ps)).len() <= b.len(),
        b.subrange(p, p + concat(polygon_chunks(ps)).len()) == concat(polygon_chunks(ps)),
    ensures
        polygons_at(b, p, ps.len()) == Step::Next(ps, p + concat(polygon_chunks(ps)).len()),
    decreases ps.len(),
{
    if ps.len() == 0 {
        assert(ps =~= Seq::<PolygonView>::empty());
    } else {
        let init = ps.drop_last();
        let last = ps.last();
        assert(polygon_chunks(ps).drop_last() =~= polygon_chunks(init));
        let front = concat(polygon_chunks(init));
        lemma_split(b, p, front, polygon_bytes(last));
        assert forall|k: int| 0 <= k < init.len() implies (#[trigger] init[k]).vertices.len()
            <= i32::MAX by {
            assert(init[k] == ps[k]);
        }
        lemma_polygons(b, p, init);
        lemma_polygon(b, p + front.len(), last);
        assert(init.push(last) =~= ps);
    }
}

/// A written object reads back unchanged.
proof fn lemma_object(b: Seq<u8>, q: int, o: Object)
    requires
        0 <= q,
        q + 28 <= b.len(),
        !(o.object_type matches ObjectType::Apple { animation, .. } && animation == i32::MIN),
        b.subrange(q, q + 28) == object_bytes(o),
    ensures
        object_at(b, q) == Step::Next(o, q + 28),
{
    lemma_le_lengths();
    let x = spec_u64_to_le_bytes(o.position.x);
    let y = spec_u64_to_le_bytes(neg_bits(o.position.y));
    let t = i32_bytes(type_code(o.object_type));
    let g = i32_bytes(gravity_code(o.object_type));
    let a = i32_bytes(animation_code(o.object_type));
    assert(x.len() == 8 && y.len() == 8 && t.len() == 4 && g.len() == 4 && a.len() == 4);
    lemma_split(b, q, x + y + t + g, a);
    lemma_split(b, q, x + y + t, g);
    lemma_split(b, q, x + y, t);
    lemma_split(b, q, x, y);
    lemma_u64_at(b, q, o.position.x);
    lemma_u64_at(b, q + 8, neg_bits(o.position.y));
    lemma_neg_neg(o.position.y);
    lemma_i32_at(b, q + 16, type_code(o.object_type));
    lemma_i32_at(b, q + 20, gravity_code(o.object_type));
    lemma_i32_at(b, q + 24, animation_code(o.object_type));
}

/// Objects of 28 bytes each.
proof fn lemma_object_chunks(os: Seq<Object>)
    ensures
        concat(object_chunks(os)).len() == 28 * os.len(),
        forall|j: int|
            0 <= j < os.len() ==> concat(object_chunks(os)).subrange(28 * j, 28 * j + 28)
                == #[trigger] object_bytes(os[j]),
{
    lemma_le_lengths();
    let chunks = object_chunks(os);
    assert forall|j: int| 0 <= j < chunks.len() implies (#[trigger] chunks[j]).len() == 28 by {
        let o = os[j];
        assert(chunks[j] == object_bytes(o));
        assert(spec_u64_to_le_bytes(o.position.x).len() == 8);
        assert(spec_u64_to_le_bytes(neg_bits(o.position.y)).len() == 8);
        assert(i32_bytes(type_code(o.object_type)).len() == 4);
        assert(i32_bytes(gravity_code(o.object_type)).len() == 4);
        assert(i32_bytes(animation_code(o.object_type)).len() == 4);
    }
    lemma_concat_fixed(chunks, 28);
    assert forall|j: int| 0 <= j < os.len() implies concat(chunks).subrange(28 * j, 28 * j + 28)
        == #[trigger] object_bytes(os[j]) by {
        assert(chunks[j] == object_bytes(os[j]));
    }
}

/// Objects read back unchanged from where they were written: found at `p`
/// in `b`, the bytes that `write_objects` gives after the stored count read
/// back, for every `n` up to their number, as the first `n` objects, with
/// positions, types, gravities and animations, and reading ends 28 bytes per
/// object further on.
pub proof fn lemma_objects(b: Seq<u8>, p: int, os: Seq<Object>, n: nat)
    requires
        0 <= p,
        n <= os.len(),
        animations_storable(os),
        p + 28 * os.len() <= b.len(),
        b.subrange(p, p + 28 * os.len()) == concat(object_chunks(os)),
    ensures
        objects_at(b, p, n) == Step::Next(os.take(n as int), p + 28 * n),
    decreases n,
{
    if n == 0 {
        assert(os.take(0) =~= Seq::<Object>::empty());
    } else {
        lemma_objects(b, p, os, (n - 1) as nat);
        lemma_object_chunks(os);
        let j = n - 1;
        lemma_sub_field(b, p, concat(object_chunks(os)), 28 * j, 28);
        assert(object_bytes(os[j]) == concat(object_chunks(os)).subrange(28 * j, 28 * j + 28));
        assert(!(os[j].object_type matches ObjectType::Apple { animation, .. } && animation
            == i32::MIN));
        lemma_object(b, p + 28 * j, os[j]);
        assert(os.take(n as int) =~= os.take(j).push(os[j]));
    }
}

/// The names of a picture fit their fields.
pub open spec fn picture_fits(pc: PictureView) -> bool {
    &&& fits_field(pc.name, 10)
    &&& fits_field(pc.texture, 10)
    &&& fits_field(pc.mask, 10)
}

/// A written picture reads back unchanged.
proof fn lemma_picture(b: Seq<u8>, q: int, pc: PictureView)
    requires
        0 <= q,
        picture_fits(pc),
        q + 54 <= b.len(),
        picture_bytes(pc) matches Ok(x) && b.subrange(q, q + 54) == x,
    ensures
        picture_bytes(pc) matches Ok(x) && x.len() == 54,
        picture_at(b, q) == Step::Next(pc, q + 54),
{
    lemma_le_lengths();
    lemma_pad_then_trim(pc.name, 10);
    lemma_pad_then_trim(pc.texture, 10);
    lemma_pad_then_trim(pc.mask, 10);
    let n = pad_spec(pc.name, 10)->Ok_0;
    let t = pad_spec(pc.texture, 10)->Ok_0;
    let m = pad_spec(pc.mask, 10)->Ok_0;
    let x = spec_u64_to_le_bytes(pc.position.x);
    let y = spec_u64_to_le_bytes(neg_bits(pc.position.y));
    let d = i32_bytes(pc.distance);
    let c = i32_bytes(clip_code(pc.clip));
    assert(x.len() == 8 && y.len() == 8 && d.len() == 4 && c.len() == 4);
    lemma_split(b, q, n + t + m + x + y + d, c);
    lemma_split(b, q, n + t + m + x + y, d);
    lemma_split(b, q, n + t + m + x, y);
    lemma_split(b, q, n + t + m, x);
    lemma_split(b, q, n + t, m);
    lemma_split(b, q, n, t);
    lemma_u64_at(b, q + 30, pc.position.x);
    lemma_u64_at(b, q + 38, neg_bits(pc.position.y));
    lemma_neg_neg(pc.position.y);
    lemma_i32_at(b, q + 46, pc.distance);
    lemma_i32_at(b, q + 50, clip_code(pc.clip));
}

/// Pictures read back unchanged from where they were written: where every
/// name fits its field, `write_pictures` succeeds, and its bytes after the
/// stored count, found at `p` in `b`, read back, as many as there are, as the
/// same pictures, with names, position, distance and clipping, and reading
/// ends 54 bytes per picture further on.
pub proof fn lemma_pictures(b: Seq<u8>, p: int, ps: Seq<PictureView>)
    requires
        0 <= p,
        forall|k: int| 0 <= k < ps.len() ==> picture_fits(#[trigger] ps[k]),
        p + 54 * ps.len() <= b.len(),
        pictures_bytes(ps) is Ok ==> b.subrange(p, p + 54 * ps.len()) == pictures_bytes(
            ps,
        )->Ok_0,
    ensures
        pictures_bytes(ps) matches Ok(x) && x.len() == 54 * ps.len(),
        pictures_at(b, p, ps.len()) == Step::Next(ps, p + 54 * ps.len()),
    decreases ps.len(),
{
    if ps.len() == 0 {
        assert(ps =~= Seq::<PictureView>::empty());
    } else {
        let init = ps.drop_last();
        let last = ps.last();
        assert forall|k: int| 0 <= k < init.len() implies picture_fits(#[trigger] init[k]) by {
            assert(init[k] == ps[k]);
        }
        lemma_pad_then_trim(last.name, 10);
        lemma_pad_then_trim(last.texture, 10);
        lemma_pad_then_trim(last.mask, 10);
        lemma_le_lengths();
        assert(spec_u64_to_le_bytes(last.position.x).len() == 8);
        assert(spec_u64_to_le_bytes(neg_bits(last.position.y)).len() == 8);
        assert(i32_bytes(last.distance).len() == 4);
        assert(i32_bytes(clip_code(last.clip)).len() == 4);
        assert(picture_bytes(last) matches Ok(x) && x.len() == 54);
        lemma_pictures_ok(init);
        let front = pictures_bytes(init)->Ok_0;
        lemma_split(b, p, front, picture_bytes(last)->Ok_0);
        lemma_pictures(b, p, init);
        lemma_picture(b, p + front.len(), last);
        assert(init.push(last) =~= ps);
    }
}

/// Pictures whose names fit are written without error, in 54 bytes each.
pub proof fn lemma_pictures_ok(ps: Seq<PictureView>)
    requires
        forall|k: int| 0 <= k < ps.len() ==> picture_fits(#[trigger] ps[k]),
    ensures
        pictures_bytes(ps) matches Ok(x) && x.len() == 54 * ps.len(),
    decreases ps.len(),
{
    if ps.len() > 0 {
        let init = ps.drop_last();
        assert forall|k: int| 0 <= k < init.len() implies picture_fits(#[trigger] init[k]) by {
            assert(init[k] == ps[k]);
        }
        lemma_pictures_ok(init);
        let last = ps.last();
        lemma_pad_then_trim(last.name, 10);
        lemma_pad_then_trim(last.texture, 10);
        lemma_pad_then_trim(last.mask, 10);
        lemma_le_lengths();
        assert(spec_u64_to_le_bytes(last.position.x).len() == 8);
        assert(spec_u64_to_le_bytes(neg_bits(last.position.y)).len() == 8);
        assert(i32_bytes(last.distance).len() == 4);
        assert(i32_bytes(clip_code(last.clip)).len() == 4);
    }
}

/// The best times that a level written with `top10` reads back with: the
/// lists ordered by time and cut to ten entries, or empty lists.
pub open spec fn saved_best_times(bt: BestTimesView, top10: Top10Save) -> BestTimesView {
    match top10 {
        Top10Save::Yes => {
            let single = sort_by_time(bt.single);
            let multi = sort_by_time(bt.multi);
            BestTimesView {
                single: single.take(shown_count(single.len()) as int),
                multi: multi.take(shown_count(multi.len()) as int),
            }
        },
        Top10Save::No => BestTimesView { single: Seq::empty(), multi: Seq::empty() },
    }
}

/// The names of the best times that a level written with `top10` keeps fit
/// their fields.
pub open spec fn best_times_fit(bt: BestTimesView, top10: Top10Save) -> bool {
    top10 == Top10Save::Yes ==> names_fit(sort_by_time(bt.single)) && names_fit(
        sort_by_time(bt.multi),
    )
}

/// The best-times part of a level is written without error, in 688 bytes.
proof fn lemma_top10_part(bt: BestTimesView, top10: Top10Save)
    requires
        best_times_fit(bt, top10),
    ensures
        top10_part(bt, top10) matches Ok(t) && t.len() == 688,
{
    match top10 {
        Top10Save::Yes => {
            lemma_table_roundtrip(sort_by_time(bt.single));
            lemma_table_roundtrip(sort_by_time(bt.multi));
        },
        Top10Save::No => {},
    }
}

/// The end of a written level reads back as its saved best times.
proof fn lemma_tail(b: Seq<u8>, p: int, bt: BestTimesView, top10: Top10Save)
    requires
        0 <= p,
        best_times_fit(bt, top10),
        p + 696 <= b.len(),
        top10_part(bt, top10) is Ok,
        b.subrange(p, p + 696) == i32_bytes(EOD) + top10_part(bt, top10)->Ok_0 + i32_bytes(EOF),
    ensures
        tail_section(b, p) == Step::Next(saved_best_times(bt, top10), p + 696),
{
    reveal(tail_section);
    lemma_top10_part(bt, top10);
    lemma_le_lengths();
    let tables = top10_part(bt, top10)->Ok_0;
    assert(i32_bytes(EOD).len() == 4 && i32_bytes(EOF).len() == 4);
    lemma_split(b, p, i32_bytes(EOD) + tables, i32_bytes(EOF));
    lemma_split(b, p, i32_bytes(EOD), tables);
    lemma_i32_at(b, p, EOD);
    lemma_i32_at(b, p + 692, EOF);
    let plain = match top10 {
        Top10Save::Yes => top10_bytes(
            BestTimesView { single: sort_by_time(bt.single), multi: sort_by_time(bt.multi) },
        )->Ok_0,
        Top10Save::No => zeros(688),
    };
    assert(tables == crypt_spec(plain));
    lemma_crypt_involution(plain);
    let dec = crypt_spec(b.subrange(p + 4, p + 692));
    assert(dec == plain);
    match top10 {
        Top10Save::Yes => {
            let s = sort_by_time(bt.single);
            let m = sort_by_time(bt.multi);
            lemma_table_roundtrip(s);
            lemma_table_roundtrip(m);
            let ts = table_bytes(s)->Ok_0;
            let tm = table_bytes(m)->Ok_0;
            assert(plain == ts + tm);
            assert(dec.subrange(0, 344) =~= ts);
            assert(dec.subrange(344, 688) =~= tm);
        },
        Top10Save::No => {
            let z = dec.subrange(0, 344);
            let w = dec.subrange(344, 688);
            lemma_u32_le_zero(z.subrange(0, 4));
            lemma_u32_le_zero(w.subrange(0, 4));
            assert(u32_at(z, 0) == 0);
            assert(u32_at(w, 0) == 0);
        },
    }
}

/// A level that is written without error and reads back as written: an
/// Elasto Mania level whose names fit their fields, whose polygons have at
/// most `i32::MAX` vertices each, whose apples' animations can be stored,
/// whose kept best times have names that fit, and whose sections fit in
/// memory.
pub open spec fn round_trips(l: LevelView, top10: Top10Save) -> bool {
    &&& l.version == Version::Elma
    &&& fits_field(l.title, 51)
    &&& fits_field(l.lgr, 16)
    &&& fits_field(l.ground, 10)
    &&& fits_field(l.sky, 10)
    &&& forall|k: int| 0 <= k < l.polygons.len() ==> (#[trigger] l.polygons[k]).vertices.len() <= i32::MAX
    &&& animations_storable(l.objects)
    &&& forall|k: int| 0 <= k < l.pictures.len() ==> picture_fits(#[trigger] l.pictures[k])
    &&& best_times_fit(l.best_times, top10)
    &&& l.polygons.len() <= usize::MAX
    &&& 28 * l.objects.len() <= usize::MAX
    &&& 54 * l.pictures.len() <= usize::MAX
}

/// The level that reading gives back of `l` written with `top10` and the
/// float fields `ff`: the same level, with the integrity sums of `ff` and the
/// best times as saved.
pub open spec fn saved_level(l: LevelView, top10: Top10Save, ff: FloatFields) -> LevelView {
    LevelView {
        integrity: ff.integrity@,
        best_times: saved_best_times(l.best_times, top10),
        ..l
    }
}

/// The decoded counts of a written level: its numbers of polygons, objects
/// and pictures.
pub open spec fn stored_counts(l: LevelView) -> Seq<usize> {
    seq![l.polygons.len() as usize, l.objects.len() as usize, l.pictures.len() as usize]
}

/// The bytes a level that round-trips is written as.
#[verifier::opaque]
pub open spec fn written(l: LevelView, top10: Top10Save, ff: FloatFields) -> Seq<u8> {
    header_bytes(l, ff) + spec_u64_to_le_bytes(ff.polygon_count) + concat(
        polygon_chunks(l.polygons),
    ) + spec_u64_to_le_bytes(ff.object_count) + concat(object_chunks(l.objects))
        + spec_u64_to_le_bytes(ff.picture_count) + pictures_bytes(l.pictures)->Ok_0 + i32_bytes(
        EOD,
    ) + top10_part(l.best_times, top10)->Ok_0 + i32_bytes(EOF)
}

/// A level that round-trips is written without error, as `written`.
proof fn lemma_written(l: LevelView, top10: Top10Save, ff: FloatFields)
    requires
        round_trips(l, top10),
    ensures
        level_bytes(l, top10, ff) == Ok::<Seq<u8>, ElmaError>(written(l, top10, ff)),
        header_bytes(l, ff).len() == 130,
        concat(object_chunks(l.objects)).len() == 28 * l.objects.len(),
        pictures_bytes(l.pictures)->Ok_0.len() == 54 * l.pictures.len(),
        top10_part(l.best_times, top10)->Ok_0.len() == 688,
{
    reveal(written);
    lemma_le_lengths();
    lemma_pad_then_trim(l.title, 51);
    lemma_pad_then_trim(l.lgr, 16);
    lemma_pad_then_trim(l.ground, 10);
    lemma_pad_then_trim(l.sky, 10);
    lemma_pictures_ok(l.pictures);
    lemma_top10_part(l.best_times, top10);
    lemma_object_chunks(l.objects);
    assert(spec_u16_to_le_bytes((l.link & 0xFFFF) as u16).len() == 2);
    assert(le_bytes_u32(l.link).len() == 4);
    assert(spec_u64_to_le_bytes(ff.integrity@[0]).len() == 8);
    assert(spec_u64_to_le_bytes(ff.integrity@[1]).len() == 8);
    assert(spec_u64_to_le_bytes(ff.integrity@[2]).len() == 8);
    assert(spec_u64_to_le_bytes(ff.integrity@[3]).len() == 8);
}

/// Where the parts of a written level sit.
proof fn lemma_written_layout(l: LevelView, top10: Top10Save, ff: FloatFields)
    requires
        round_trips(l, top10),
    ensures
        ({
            let b = written(l, top10, ff);
            let polys = concat(polygon_chunks(l.polygons));
            let p1: int = 138 + polys.len() as int;
            let p2: int = p1 + 8 + 28 * l.objects.len();
            let p3: int = p2 + 8 + 54 * l.pictures.len();
            &&& b.len() == p3 + 696
            &&& b.subrange(0, 130) == header_bytes(l, ff)
            &&& b.subrange(130, 138) == spec_u64_to_le_bytes(ff.polygon_count)
            &&& b.subrange(138, p1) == polys
            &&& b.subrange(p1, p1 + 8) == spec_u64_to_le_bytes(ff.object_count)
            &&& b.subrange(p1 + 8, p2) == concat(object_chunks(l.objects))
            &&& b.subrange(p2, p2 + 8) == spec_u64_to_le_bytes(ff.picture_count)
            &&& b.subrange(p2 + 8, p3) == pictures_bytes(l.pictures)->Ok_0
            &&& b.subrange(p3, p3 + 696) == i32_bytes(EOD) + top10_part(l.best_times, top10)->Ok_0
                + i32_bytes(EOF)
        }),
{
    reveal(written);
    lemma_written(l, top10, ff);
    lemma_le_lengths();
    let pictures = pictures_bytes(l.pictures)->Ok_0;
    let tables = top10_part(l.best_times, top10)->Ok_0;
    let polys = concat(polygon_chunks(l.polygons));
    let objs = concat(object_chunks(l.objects));
    let pc = spec_u64_to_le_bytes(ff.polygon_count);
    let oc = spec_u64_to_le_bytes(ff.object_count);
    let cc = spec_u64_to_le_bytes(ff.picture_count);
    let eod = i32_bytes(EOD);
    let eof = i32_bytes(EOF);
    assert(pc.len() == 8 && oc.len() == 8 && cc.len() == 8 && eod.len() == 4 && eof.len() == 4);
    let x9 = header_bytes(l, ff);
    let x8 = x9 + pc;
    let x7 = x8 + polys;
    let x6 = x7 + oc;
    let x5 = x6 + objs;
    let x4 = x5 + cc;
    let x3 = x4 + pictures;
    let x2 = x3 + eod;
    let x1 = x2 + tables;
    let b = x1 + eof;
    assert(b == written(l, top10, ff));
    assert(b.subrange(0, b.len() as int) =~= b);
    lemma_split(b, 0, x1, eof);
    lemma_split(b, 0, x2, tables);
    lemma_split(b, 0, x3, eod);
    lemma_split(b, 0, x4, pictures);
    lemma_split(b, 0, x5, cc);
    lemma_split(b, 0, x6, objs);
    lemma_split(b, 0, x7, oc);
    lemma_split(b, 0, x8, polys);
    lemma_split(b, 0, x9, pc);
    let p3 = x3.len() as int;
    assert(b.subrange(p3, p3 + 696) =~= eod + tables + eof);
}

/// Each part of a written level reads back as what was written.
proof fn lemma_sections(l: LevelView, top10: Top10Save, ff: FloatFields)
    requires
        round_trips(l, top10),
    ensures
        ({
            let b = written(l, top10, ff);
            let p1: int = 138 + concat(polygon_chunks(l.polygons)).len() as int;
            let p2: int = p1 + 8 + 28 * l.objects.len();
            let p3: int = p2 + 8 + 54 * l.pictures.len();
            &&& b.len() == p3 + 696
            &&& header_at(b) == Step::Next(
                HeaderView {
                    link: l.link,
                    integrity: ff.integrity@,
                    title: l.title,
                    lgr: l.lgr,
                    ground: l.ground,
                    sky: l.sky,
                },
                130,
            )
            &&& u64_at(b, 130) == ff.polygon_count
            &&& u64_at(b, p1) == ff.object_count
            &&& u64_at(b, p2) == ff.picture_count
            &&& polygons_at(b, 138, l.polygons.len()) == Step::Next(l.polygons, p1)
            &&& objects_at(b, p1 + 8, l.objects.len()) == Step::Next(l.objects, p2)
            &&& pictures_at(b, p2 + 8, l.pictures.len()) == Step::Next(l.pictures, p3)
            &&& tail_section(b, p3) == Step::Next(saved_best_times(l.best_times, top10), p3 + 696)
        }),
{
    lemma_written(l, top10, ff);
    lemma_written_layout(l, top10, ff);
    let b = written(l, top10, ff);
    let polys = concat(polygon_chunks(l.polygons));
    let p1: int = 138 + polys.len() as int;
    let p2: int = p1 + 8 + 28 * l.objects.len();
    let p3: int = p2 + 8 + 54 * l.pictures.len();
    lemma_header(b, l, ff);
    lemma_u64_at(b, 130, ff.polygon_count);
    lemma_u64_at(b, p1, ff.object_count);
    lemma_u64_at(b, p2, ff.picture_count);
    lemma_polygons(b, 138, l.polygons);
    lemma_objects(b, p1 + 8, l.objects, l.objects.len());
    assert(l.objects.take(l.objects.len() as int) =~= l.objects);
    lemma_pictures(b, p2 + 8, l.pictures);
    lemma_tail(b, p3, l.best_times, top10);
}

/// Writing a level and reading the bytes back gives the level back: with
/// the stored counts decoded to its numbers of polygons, objects and
/// pictures, the reader returns the level with the integrity sums that were
/// written and its best times as saved. With fewer counts decoded, the reader
/// asks for the next count and hands over exactly the bits written for it.
pub proof fn lemma_write_then_read(l: LevelView, top10: Top10Save, ff: FloatFields)
    requires
        round_trips(l, top10),
    ensures
        level_bytes(l, top10, ff) matches Ok(b) && parse_level_spec(b, stored_counts(l))
            == LevelParseView::Done(saved_level(l, top10, ff)) && parse_level_spec(b, seq![])
            == LevelParseView::NeedCount(CountField::Polygons, ff.polygon_count)
            && parse_level_spec(b, stored_counts(l).take(1)) == LevelParseView::NeedCount(
            CountField::Objects,
            ff.object_count,
        ) && parse_level_spec(b, stored_counts(l).take(2)) == LevelParseView::NeedCount(
            CountField::Pictures,
            ff.picture_count,
        ),
{
    lemma_written(l, top10, ff);
    lemma_read_all(l, top10, ff);
    lemma_read_asks(l, top10, ff);
}

/// Reading a written level with its counts decoded gives it back.
proof fn lemma_read_all(l: LevelView, top10: Top10Save, ff: FloatFields)
    requires
        round_trips(l, top10),
    ensures
        parse_level_spec(written(l, top10, ff), stored_counts(l)) == LevelParseView::Done(
            saved_level(l, top10, ff),
        ),
{
    lemma_sections(l, top10, ff);
}

/// Reading a written level asks for each count in turn, with the bits
/// written for it.
proof fn lemma_read_asks(l: LevelView, top10: Top10Save, ff: FloatFields)
    requires
        round_trips(l, top10),
    ensures
        parse_level_spec(written(l, top10, ff), seq![]) == LevelParseView::NeedCount(
            CountField::Polygons,
            ff.polygon_count,
        ),
        parse_level_spec(written(l, top10, ff), stored_counts(l).take(1))
            == LevelParseView::NeedCount(CountField::Objects, ff.object_count),
        parse_level_spec(written(l, top10, ff), stored_counts(l).take(2))
            == LevelParseView::NeedCount(CountField::Pictures, ff.picture_count),
{
    lemma_sections(l, top10, ff);
    let counts = stored_counts(l);
    assert(counts.take(1) =~= seq![l.polygons.len() as usize]);
    assert(counts.take(2) =~= seq![l.polygons.len() as usize, l.objects.len() as usize]);
}

} // verus!
