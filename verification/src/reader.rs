//! Reading level files.
use crate::crypt::{crypt_spec, crypt_top10};
use crate::endian::{get_i32, get_u32, get_u64, i32_at, u32_at, u64_at};
use crate::error::ElmaError;
use crate::level::{
    neg_bits, negate, Clip, GravityDirection, Level, LevelView, Object, ObjectType, Picture,
    PictureView, Polygon, PolygonView, Position, Version, pictures_view, polygons_view,
};
use crate::text::{trim_spec, trim_string};
use crate::top10::{parse_table_spec, parse_top10, BestTimes, BestTimesView};
use vstd::prelude::*;
use vstd::slice::slice_subrange;

verus! {

/// Magic number that marks the end of the level data.
pub const EOD: i32 = 0x0067103A;

/// Magic number that marks the end of the file.
pub const EOF: i32 = 0x00845D52;

/// A count in a level file that is stored as a floating-point number.
#[derive(Clone, Copy, Debug, PartialEq, Eq, Structural)]
pub enum CountField {
    /// Number of polygons; stored as the count plus 0.4643643.
    Polygons,
    /// Number of objects; stored as the count plus 0.4643643.
    Objects,
    /// Number of pictures; stored as the count plus 0.2345672.
    Pictures,
}

/// Where reading a part of a level file ends.
pub enum Step<T> {
    /// The part was read: its value and the position after it.
    Next(T, int),
    /// Reading fails with this error.
    Fail(ElmaError),
    /// The count in this field, whose bits are given, has to be decoded first.
    Need(CountField, u64),
    /// The data is cut short or a count overflows where the format's reader
    /// has no error to give.
    Abort,
}

/// Why an exec reader stopped before the end of a part.
pub enum Stop {
    Fail(ElmaError),
    Need(CountField, u64),
    Abort,
}

/// The step that a stop stands for.
pub open spec fn stop_step<T>(s: Stop) -> Step<T> {
    match s {
        Stop::Fail(e) => Step::Fail(e),
        Stop::Need(f, v) => Step::Need(f, v),
        Stop::Abort => Step::Abort,
    }
}

/// The outcome of reading a level file with some of its counts decoded.
#[derive(Debug, PartialEq)]
pub enum LevelParse {
    /// The level.
    Done(Level),
    /// The next count to decode: which one, and its bits.
    NeedCount(CountField, u64),
    /// The file is not a valid level.
    Failed(ElmaError),
    /// The data is cut short at a place, or has a count so large, that the
    /// format's reader indexes past its end or overflows instead of
    /// returning an error.
    OutOfBounds,
}

/// What a `LevelParse` holds.
pub enum LevelParseView {
    Done(LevelView),
    NeedCount(CountField, u64),
    Failed(ElmaError),
    OutOfBounds,
}

impl View for LevelParse {
    type V = LevelParseView;

    open spec fn view(&self) -> LevelParseView {
        match self {
            LevelParse::Done(l) => LevelParseView::Done(l@),
            LevelParse::NeedCount(f, v) => LevelParseView::NeedCount(*f, *v),
            LevelParse::Failed(e) => LevelParseView::Failed(*e),
            LevelParse::OutOfBounds => LevelParseView::OutOfBounds,
        }
    }
}

/// The outcome of a level read that stopped at a step that is not `Next`.
pub open spec fn stopped<T>(s: Step<T>) -> LevelParseView {
    match s {
        Step::Next(_, _) => LevelParseView::OutOfBounds,
        Step::Fail(e) => LevelParseView::Failed(e),
        Step::Need(f, v) => LevelParseView::NeedCount(f, v),
        Step::Abort => LevelParseView::OutOfBounds,
    }
}

/// The magic string of an Elasto Mania level, "POT14".
pub open spec fn magic_elma() -> Seq<u8> {
    seq![80u8, 79u8, 84u8, 49u8, 52u8]
}

/// The magic string of an Across level, "POT06".
pub open spec fn magic_across() -> Seq<u8> {
    seq![80u8, 79u8, 84u8, 48u8, 54u8]
}

/// The fields of a level file's header.
pub struct HeaderView {
    pub link: u32,
    pub integrity: Seq<u64>,
    pub title: Seq<char>,
    pub lgr: Seq<char>,
    pub ground: Seq<char>,
    pub sky: Seq<char>,
}

/// The header: magic string (5 bytes), two unused bytes, link, four
/// integrity sums, title (51 bytes), LGR (16), ground (10) and sky (10).
#[verifier::opaque]
pub open spec fn header_at(b: Seq<u8>) -> Step<HeaderView> {
    if b.len() < 5 {
        Step::Abort
    } else if b.subrange(0, 5) == magic_elma() {
        if b.len() < 7 {
            Step::Abort
        } else if b.len() < 43 {
            Step::Fail(ElmaError::UnexpectedEof)
        } else if b.len() < 94 {
            Step::Abort
        } else {
            match trim_spec(b.subrange(43, 94)) {
                None => Step::Fail(ElmaError::InvalidUtf8),
                Some(title) => if b.len() < 110 {
                    Step::Abort
                } else {
                    match trim_spec(b.subrange(94, 110)) {
                        None => Step::Fail(ElmaError::InvalidUtf8),
                        Some(lgr) => if b.len() < 120 {
                            Step::Abort
                        } else {
                            match trim_spec(b.subrange(110, 120)) {
                                None => Step::Fail(ElmaError::InvalidUtf8),
                                Some(ground) => if b.len() < 130 {
                                    Step::Abort
                                } else {
                                    match trim_spec(b.subrange(120, 130)) {
                                        None => Step::Fail(ElmaError::InvalidUtf8),
                                        Some(sky) => Step::Next(
                                            HeaderView {
                                                link: u32_at(b, 7),
                                                integrity: seq![
                                                    u64_at(b, 11),
                                                    u64_at(b, 19),
                                                    u64_at(b, 27),
                                                    u64_at(b, 35),
                                                ],
                                                title,
                                                lgr,
                                                ground,
                                                sky,
                                            },
                                            130,
                                        ),
                                    }
                                },
                            }
                        },
                    }
                },
            }
        }
    } else if b.subrange(0, 5) == magic_across() {
        Step::Fail(ElmaError::AcrossUnsupported)
    } else {
        Step::Fail(ElmaError::InvalidLevelFile)
    }
}

/// The vertex at `r`: x, then y negated, as `f64` bit patterns.
pub open spec fn vertex_at(b: Seq<u8>, r: int) -> Position {
    Position { x: u64_at(b, r), y: neg_bits(u64_at(b, r + 8)) }
}

/// How many vertices a stored vertex count stands for.
pub open spec fn vertex_count(c: i32) -> nat {
    if c < 0 {
        0
    } else {
        c as nat
    }
}

/// The polygon at `q`: grass flag, vertex count, vertices.
pub open spec fn polygon_at(b: Seq<u8>, q: int) -> Step<PolygonView> {
    if q + 8 > b.len() {
        Step::Fail(ElmaError::UnexpectedEof)
    } else {
        let n = vertex_count(i32_at(b, q + 4));
        if q + 8 + 16 * n > b.len() {
            Step::Fail(ElmaError::UnexpectedEof)
        } else {
            Step::Next(
                PolygonView {
                    grass: i32_at(b, q) > 0,
                    vertices: Seq::new(n, |i: int| vertex_at(b, q + 8 + 16 * i)),
                },
                q + 8 + 16 * n,
            )
        }
    }
}

/// `n` polygons from `p` on, or where reading them stops.
pub open spec fn polygons_at(b: Seq<u8>, p: int, n: nat) -> Step<Seq<PolygonView>>
    decreases n,
{
    if n == 0 {
        Step::Next(Seq::empty(), p)
    } else {
        match polygons_at(b, p, (n - 1) as nat) {
            Step::Next(ps, q) => match polygon_at(b, q) {
                Step::Next(pg, r) => Step::Next(ps.push(pg), r),
                Step::Fail(e) => Step::Fail(e),
                Step::Need(f, v) => Step::Need(f, v),
                Step::Abort => Step::Abort,
            },
            Step::Fail(e) => Step::Fail(e),
            Step::Need(f, v) => Step::Need(f, v),
            Step::Abort => Step::Abort,
        }
    }
}

/// The gravity that a stored gravity value stands for.
pub open spec fn gravity_of(g: i32) -> Option<GravityDirection> {
    if g == 0 {
        Some(GravityDirection::NoChange)
    } else if g == 1 {
        Some(GravityDirection::Up)
    } else if g == 2 {
        Some(GravityDirection::Down)
    } else if g == 3 {
        Some(GravityDirection::Left)
    } else if g == 4 {
        Some(GravityDirection::Right)
    } else {
        None
    }
}

/// The object at `q`: x, y negated, type, gravity and animation (stored
/// one less than it is).
pub open spec fn object_at(b: Seq<u8>, q: int) -> Step<Object> {
    let g = i32_at(b, q + 20);
    match gravity_of(g) {
        None => Step::Fail(ElmaError::InvalidGravity(g)),
        Some(gravity) => {
            let a = i32_at(b, q + 24);
            if a == i32::MAX {
                Step::Abort
            } else {
                let t = i32_at(b, q + 16);
                let position = Position { x: u64_at(b, q), y: neg_bits(u64_at(b, q + 8)) };
                if t == 1 {
                    Step::Next(Object { position, object_type: ObjectType::Exit }, q + 28)
                } else if t == 2 {
                    Step::Next(
                        Object {
                            position,
                            object_type: ObjectType::Apple { gravity, animation: (a + 1) as i32 },
                        },
                        q + 28,
                    )
                } else if t == 3 {
                    Step::Next(Object { position, object_type: ObjectType::Killer }, q + 28)
                } else if t == 4 {
                    Step::Next(Object { position, object_type: ObjectType::Player }, q + 28)
                } else {
                    Step::Fail(ElmaError::InvalidObject(t))
                }
            }
        },
    }
}

/// `n` objects from `p` on, or where reading them stops.
pub open spec fn objects_at(b: Seq<u8>, p: int, n: nat) -> Step<Seq<Object>>
    decreases n,
{
    if n == 0 {
        Step::Next(Seq::empty(), p)
    } else {
        match objects_at(b, p, (n - 1) as nat) {
            Step::Next(os, q) => match object_at(b, q) {
                Step::Next(o, r) => Step::Next(os.push(o), r),
                Step::Fail(e) => Step::Fail(e),
                Step::Need(f, v) => Step::Need(f, v),
                Step::Abort => Step::Abort,
            },
            Step::Fail(e) => Step::Fail(e),
            Step::Need(f, v) => Step::Need(f, v),
            Step::Abort => Step::Abort,
        }
    }
}

/// The clipping that a stored clipping value stands for.
pub open spec fn clip_of(c: i32) -> Option<Clip> {
    if c == 0 {
        Some(Clip::Unclipped)
    } else if c == 1 {
        Some(Clip::Ground)
    } else if c == 2 {
        Some(Clip::Sky)
    } else {
        None
    }
}

/// The picture at `q`: name, texture, mask (10 bytes each), x, y negated,
/// distance and clipping.
pub open spec fn picture_at(b: Seq<u8>, q: int) -> Step<PictureView> {
    match trim_spec(b.subrange(q, q + 10)) {
        None => Step::Fail(ElmaError::InvalidUtf8),
        Some(name) => match trim_spec(b.subrange(q + 10, q + 20)) {
            None => Step::Fail(ElmaError::InvalidUtf8),
            Some(texture) => match trim_spec(b.subrange(q + 20, q + 30)) {
                None => Step::Fail(ElmaError::InvalidUtf8),
                Some(mask) => {
                    let c = i32_at(b, q + 50);
                    match clip_of(c) {
                        None => Step::Fail(ElmaError::InvalidClipping(c)),
                        Some(clip) => Step::Next(
                            PictureView {
                                name,
                                texture,
                                mask,
                                position: Position {
                                    x: u64_at(b, q + 30),
                                    y: neg_bits(u64_at(b, q + 38)),
                                },
                                distance: i32_at(b, q + 46),
                                clip,
                            },
                            q + 54,
                        ),
                    }
                },
            },
        },
    }
}

/// `n` pictures from `p` on, or where reading them stops.
pub open spec fn pictures_at(b: Seq<u8>, p: int, n: nat) -> Step<Seq<PictureView>>
    decreases n,
{
    if n == 0 {
        Step::Next(Seq::empty(), p)
    } else {
        match pictures_at(b, p, (n - 1) as nat) {
            Step::Next(ps, q) => match picture_at(b, q) {
                Step::Next(pc, r) => Step::Next(ps.push(pc), r),
                Step::Fail(e) => Step::Fail(e),
                Step::Need(f, v) => Step::Need(f, v),
                Step::Abort => Step::Abort,
            },
            Step::Fail(e) => Step::Fail(e),
            Step::Need(f, v) => Step::Need(f, v),
            Step::Abort => Step::Abort,
        }
    }
}

/// The polygon section, which follows the header: its stored count, then
/// as many polygons as the first decoded count says.
pub open spec fn polygon_section(b: Seq<u8>, counts: Seq<usize>) -> Step<Seq<PolygonView>> {
    if b.len() < 138 {
        Step::Fail(ElmaError::UnexpectedEof)
    } else if counts.len() < 1 {
        Step::Need(CountField::Polygons, u64_at(b, 130))
    } else {
        polygons_at(b, 138, counts[0] as nat)
    }
}

/// The object section at `p`: its stored count, then as many objects of 28
/// bytes as the second decoded count says.
pub open spec fn object_section(b: Seq<u8>, counts: Seq<usize>, p: int) -> Step<Seq<Object>> {
    if p + 8 > b.len() {
        Step::Fail(ElmaError::UnexpectedEof)
    } else if counts.len() < 2 {
        Step::Need(CountField::Objects, u64_at(b, p))
    } else if counts[1] * 28 > usize::MAX || p + 8 + counts[1] * 28 > b.len() {
        Step::Abort
    } else {
        objects_at(b, p + 8, counts[1] as nat)
    }
}

/// The picture section at `p`: its stored count, then as many pictures of
/// 54 bytes as the third decoded count says.
pub open spec fn picture_section(b: Seq<u8>, counts: Seq<usize>, p: int) -> Step<
    Seq<PictureView>,
> {
    if p + 8 > b.len() {
        Step::Fail(ElmaError::UnexpectedEof)
    } else if counts.len() < 3 {
        Step::Need(CountField::Pictures, u64_at(b, p))
    } else if counts[2] * 54 > usize::MAX || p + 8 + counts[2] * 54 > b.len() {
        Step::Abort
    } else {
        pictures_at(b, p + 8, counts[2] as nat)
    }
}

/// The end of the file at `p`: the end-of-data marker, the encrypted
/// best-times tables and the end-of-file marker.
#[verifier::opaque]
pub open spec fn tail_section(b: Seq<u8>, p: int) -> Step<BestTimesView> {
    if p + 4 > b.len() {
        Step::Fail(ElmaError::UnexpectedEof)
    } else if i32_at(b, p) != EOD {
        Step::Fail(ElmaError::EODMismatch)
    } else if p + 692 > b.len() {
        Step::Abort
    } else {
        let tables = crypt_spec(b.subrange(p + 4, p + 692));
        match parse_table_spec(tables.subrange(0, 344)) {
            Err(e) => Step::Fail(e),
            Ok(single) => match parse_table_spec(tables.subrange(344, 688)) {
                Err(e) => Step::Fail(e),
                Ok(multi) => if p + 696 > b.len() {
                    Step::Fail(ElmaError::UnexpectedEof)
                } else if i32_at(b, p + 692) != EOF {
                    Step::Fail(ElmaError::EOFMismatch)
                } else {
                    Step::Next(BestTimesView { single, multi }, p + 696)
                },
            },
        }
    }
}

/// Reading a whole level file, given the first decoded counts.
pub open spec fn parse_level_spec(b: Seq<u8>, counts: Seq<usize>) -> LevelParseView {
    match header_at(b) {
        Step::Next(h, _) => match polygon_section(b, counts) {
            Step::Next(polygons, p1) => match object_section(b, counts, p1) {
                Step::Next(objects, p2) => match picture_section(b, counts, p2) {
                    Step::Next(pictures, p3) => match tail_section(b, p3) {
                        Step::Next(best_times, _) => LevelParseView::Done(
                            LevelView {
                                version: Version::Elma,
                                link: h.link,
                                integrity: h.integrity,
                                title: h.title,
                                lgr: h.lgr,
                                ground: h.ground,
                                sky: h.sky,
                                polygons,
                                objects,
                                pictures,
                                best_times,
                            },
                        ),
                        s => stopped(s),
                    },
                    s => stopped(s),
                },
                s => stopped(s),
            },
            s => stopped(s),
        },
        s => stopped(s),
    }
}

/// The fields of a header, as read.
pub struct Header {
    pub link: u32,
    pub integrity: [u64; 4],
    pub title: String,
    pub lgr: String,
    pub ground: String,
    pub sky: String,
}

/// What a `Header` holds.
pub open spec fn header_view(h: Header) -> HeaderView {
    HeaderView {
        link: h.link,
        integrity: h.integrity@,
        title: h.title@,
        lgr: h.lgr@,
        ground: h.ground@,
        sky: h.sky@,
    }
}

/// Whether the data starts with `P`, `O`, `T` and the two given digits.
fn has_magic(b: &[u8], d1: u8, d2: u8) -> (r: bool)
    requires
        b@.len() >= 5,
    ensures
        r == (b@.subrange(0, 5) == seq![80u8, 79u8, 84u8, d1, d2]),
{
    let r = b[0] == 80 && b[1] == 79 && b[2] == 84 && b[3] == d1 && b[4] == d2;
    let ghost m = seq![80u8, 79u8, 84u8, d1, d2];
    proof {
        if r {
            assert(b@.subrange(0, 5) =~= m);
        } else if b@.subrange(0, 5) == m {
            assert(b@.subrange(0, 5)[0] == m[0]);
            assert(b@.subrange(0, 5)[1] == m[1]);
            assert(b@.subrange(0, 5)[2] == m[2]);
            assert(b@.subrange(0, 5)[3] == m[3]);
            assert(b@.subrange(0, 5)[4] == m[4]);
        }
    }
    r
}

/// The `u64` at `pos`, or a stop where the data ends before it.
fn need_u64(b: &[u8], pos: usize) -> (r: Result<u64, Stop>)
    ensures
        pos + 8 <= b@.len() ==> r == Ok::<u64, Stop>(u64_at(b@, pos as int)),
        pos + 8 > b@.len() ==> r == Err::<u64, Stop>(Stop::Fail(ElmaError::UnexpectedEof)),
{
    match get_u64(b, pos) {
        Some(v) => Ok(v),
        None => Err(Stop::Fail(ElmaError::UnexpectedEof)),
    }
}

/// The `i32` at `pos`, or a stop where the data ends before it.
fn need_i32(b: &[u8], pos: usize) -> (r: Result<i32, Stop>)
    ensures
        pos + 4 <= b@.len() ==> r == Ok::<i32, Stop>(i32_at(b@, pos as int)),
        pos + 4 > b@.len() ==> r == Err::<i32, Stop>(Stop::Fail(ElmaError::UnexpectedEof)),
{
    match get_i32(b, pos) {
        Some(v) => Ok(v),
        None => Err(Stop::Fail(ElmaError::UnexpectedEof)),
    }
}

/// The name in the zero-padded field `b[from..to]`.
fn need_name(b: &[u8], from: usize, to: usize) -> (r: Result<String, Stop>)
    requires
        from <= to <= b@.len(),
    ensures
        match r {
            Ok(s) => trim_spec(b@.subrange(from as int, to as int)) == Some(s@),
            Err(s) => trim_spec(b@.subrange(from as int, to as int)) is None && s == Stop::Fail(
                ElmaError::InvalidUtf8,
            ),
        },
{
    match trim_string(slice_subrange(b, from, to)) {
        Ok(s) => Ok(s),
        Err(e) => Err(Stop::Fail(e)),
    }
}

/// Reads the header.
fn parse_header(b: &[u8]) -> (r: Result<Header, Stop>)
    ensures
        match r {
            Ok(h) => header_at(b@) == Step::Next(header_view(h), 130),
            Err(s) => header_at(b@) == stop_step::<HeaderView>(s),
        },
{
    reveal(header_at);
    if b.len() < 5 {
        return Err(Stop::Abort);
    }
    if !has_magic(b, 49, 52) {
        if has_magic(b, 48, 54) {
            return Err(Stop::Fail(ElmaError::AcrossUnsupported));
        } else {
            return Err(Stop::Fail(ElmaError::InvalidLevelFile));
        }
    }
    if b.len() < 7 {
        return Err(Stop::Abort);
    }
    let link = match get_u32(b, 7) {
        Some(v) => v,
        None => return Err(Stop::Fail(ElmaError::UnexpectedEof)),
    };
    let i0 = need_u64(b, 11)?;
    let i1 = need_u64(b, 19)?;
    let i2 = need_u64(b, 27)?;
    let i3 = need_u64(b, 35)?;
    if b.len() < 94 {
        return Err(Stop::Abort);
    }
    let title = need_name(b, 43, 94)?;
    if b.len() < 110 {
        return Err(Stop::Abort);
    }
    let lgr = need_name(b, 94, 110)?;
    if b.len() < 120 {
        return Err(Stop::Abort);
    }
    let ground = need_name(b, 110, 120)?;
    if b.len() < 130 {
        return Err(Stop::Abort);
    }
    let sky = need_name(b, 120, 130)?;
    let integrity = [i0, i1, i2, i3];
    assert(integrity@ =~= seq![i0, i1, i2, i3]);
    Ok(Header { link, integrity, title, lgr, ground, sky })
}

/// Reads the polygon at `q`.
fn parse_polygon(b: &[u8], q: usize) -> (r: Result<(Polygon, usize), Stop>)
    requires
        q <= b.len(),
    ensures
        match r {
            Ok((pg, e)) => polygon_at(b@, q as int) == Step::Next(pg@, e as int),
            Err(s) => polygon_at(b@, q as int) == stop_step::<PolygonView>(s),
        },
{
    let grass = need_i32(b, q)?;
    let count = need_i32(b, q + 4)?;
    let n: usize = if count < 0 {
        0
    } else {
        count as usize
    };
    let mut vertices: Vec<Position> = Vec::new();
    let mut r: usize = q + 8;
    let mut i: usize = 0;
    while i < n
        invariant
            q + 8 <= b.len(),
            n == vertex_count(i32_at(b@, q + 4)),
            i <= n,
            r == q + 8 + 16 * i,
            r <= b.len(),
            vertices@ == Seq::new(i as nat, |k: int| vertex_at(b@, q + 8 + 16 * k)),
        decreases n - i,
    {
        let x = need_u64(b, r)?;
        let y = need_u64(b, r + 8)?;
        vertices.push(Position { x, y: negate(y) });
        r = r + 16;
        i += 1;
        assert(vertices@ =~= Seq::new(i as nat, |k: int| vertex_at(b@, q + 8 + 16 * k)));
    }
    Ok((Polygon { grass: grass > 0, vertices }, r))
}

/// Once reading polygons stops, reading more stops the same way.
proof fn lemma_polygons_stop(b: Seq<u8>, p: int, k: nat, m: nat)
    requires
        !(polygons_at(b, p, k) is Next),
        k <= m,
    ensures
        polygons_at(b, p, m) == polygons_at(b, p, k),
    decreases m,
{
    if m > k {
        lemma_polygons_stop(b, p, k, (m - 1) as nat);
    }
}

/// Reads `n` polygons from `p` on.
fn parse_polygons(b: &[u8], p: usize, n: usize) -> (r: Result<(Vec<Polygon>, usize), Stop>)
    requires
        p <= b.len(),
    ensures
        match r {
            Ok((ps, e)) => polygons_at(b@, p as int, n as nat) == Step::Next(
                polygons_view(ps@),
                e as int,
            ),
            Err(s) => polygons_at(b@, p as int, n as nat) == stop_step::<Seq<PolygonView>>(s),
        },
{
    let mut polygons: Vec<Polygon> = Vec::new();
    let mut q: usize = p;
    let mut i: usize = 0;
    assert(polygons_view(polygons@) =~= Seq::<PolygonView>::empty());
    while i < n
        invariant
            i <= n,
            q <= b.len(),
            polygons_at(b@, p as int, i as nat) == Step::Next(polygons_view(polygons@), q as int),
        decreases n - i,
    {
        match parse_polygon(b, q) {
            Ok((pg, e)) => {
                let ghost before = polygons@;
                polygons.push(pg);
                assert(polygons_view(polygons@) =~= polygons_view(before).push(pg@));
                q = e;
            },
            Err(s) => {
                proof {
                    lemma_polygons_stop(b@, p as int, (i + 1) as nat, n as nat);
                }
                return Err(s);
            },
        }
        i += 1;
    }
    Ok((polygons, q))
}

/// Reads the object at `q`.
fn parse_object(b: &[u8], q: usize) -> (r: Result<Object, Stop>)
    requires
        q + 28 <= b.len(),
    ensures
        match r {
            Ok(o) => object_at(b@, q as int) == Step::Next(o, q + 28),
            Err(s) => object_at(b@, q as int) == stop_step::<Object>(s),
        },
{
    let x = need_u64(b, q)?;
    let y = need_u64(b, q + 8)?;
    let position = Position { x, y: negate(y) };
    let object_type = need_i32(b, q + 16)?;
    let gravity = need_i32(b, q + 20)?;
    let gravity = match gravity {
        0 => GravityDirection::NoChange,
        1 => GravityDirection::Up,
        2 => GravityDirection::Down,
        3 => GravityDirection::Left,
        4 => GravityDirection::Right,
        other => return Err(Stop::Fail(ElmaError::InvalidGravity(other))),
    };
    let animation = need_i32(b, q + 24)?;
    if animation == i32::MAX {
        return Err(Stop::Abort);
    }
    let animation = animation + 1;
    let object_type = match object_type {
        1 => ObjectType::Exit,
        2 => ObjectType::Apple { gravity, animation },
        3 => ObjectType::Killer,
        4 => ObjectType::Player,
        other => return Err(Stop::Fail(ElmaError::InvalidObject(other))),
    };
    Ok(Object { position, object_type })
}

/// Once reading objects stops, reading more stops the same way.
proof fn lemma_objects_stop(b: Seq<u8>, p: int, k: nat, m: nat)
    requires
        !(objects_at(b, p, k) is Next),
        k <= m,
    ensures
        objects_at(b, p, m) == objects_at(b, p, k),
    decreases m,
{
    if m > k {
        lemma_objects_stop(b, p, k, (m - 1) as nat);
    }
}

/// Reads `n` objects of 28 bytes from `p` on.
fn parse_objects(b: &[u8], p: usize, n: usize) -> (r: Result<Vec<Object>, Stop>)
    requires
        p + 28 * n <= b.len(),
    ensures
        match r {
            Ok(os) => objects_at(b@, p as int, n as nat) == Step::Next(os@, p + 28 * n),
            Err(s) => objects_at(b@, p as int, n as nat) == stop_step::<Seq<Object>>(s),
        },
{
    let mut objects: Vec<Object> = Vec::new();
    let mut q: usize = p;
    let mut i: usize = 0;
    while i < n
        invariant
            i <= n,
            p + 28 * n <= b.len(),
            q == p + 28 * i,
            objects_at(b@, p as int, i as nat) == Step::Next(objects@, q as int),
        decreases n - i,
    {
        match parse_object(b, q) {
            Ok(o) => {
                objects.push(o);
                q = q + 28;
            },
            Err(s) => {
                proof {
                    lemma_objects_stop(b@, p as int, (i + 1) as nat, n as nat);
                }
                return Err(s);
            },
        }
        i += 1;
    }
    Ok(objects)
}

/// Reads the picture at `q`.
fn parse_picture(b: &[u8], q: usize) -> (r: Result<Picture, Stop>)
    requires
        q + 54 <= b.len(),
    ensures
        match r {
            Ok(pc) => picture_at(b@, q as int) == Step::Next(pc@, q + 54),
            Err(s) => picture_at(b@, q as int) == stop_step::<PictureView>(s),
        },
{
    let name = need_name(b, q, q + 10)?;
    let texture = need_name(b, q + 10, q + 20)?;
    let mask = need_name(b, q + 20, q + 30)?;
    let x = need_u64(b, q + 30)?;
    let y = need_u64(b, q + 38)?;
    let distance = need_i32(b, q + 46)?;
    let clipping = need_i32(b, q + 50)?;
    let clip = match clipping {
        0 => Clip::Unclipped,
        1 => Clip::Ground,
        2 => Clip::Sky,
        other => return Err(Stop::Fail(ElmaError::InvalidClipping(other))),
    };
    Ok(Picture { name, texture, mask, position: Position { x, y: negate(y) }, distance, clip })
}

/// Once reading pictures stops, reading more stops the same way.
proof fn lemma_pictures_stop(b: Seq<u8>, p: int, k: nat, m: nat)
    requires
        !(pictures_at(b, p, k) is Next),
        k <= m,
    ensures
        pictures_at(b, p, m) == pictures_at(b, p, k),
    decreases m,
{
    if m > k {
        lemma_pictures_stop(b, p, k, (m - 1) as nat);
    }
}

/// Reads `n` pictures of 54 bytes from `p` on.
fn parse_pictures(b: &[u8], p: usize, n: usize) -> (r: Result<Vec<Picture>, Stop>)
    requires
        p + 54 * n <= b.len(),
    ensures
        match r {
            Ok(ps) => pictures_at(b@, p as int, n as nat) == Step::Next(
                pictures_view(ps@),
                p + 54 * n,
            ),
            Err(s) => pictures_at(b@, p as int, n as nat) == stop_step::<Seq<PictureView>>(s),
        },
{
    let mut pictures: Vec<Picture> = Vec::new();
    let mut q: usize = p;
    let mut i: usize = 0;
    assert(pictures_view(pictures@) =~= Seq::<PictureView>::empty());
    while i < n
        invariant
            i <= n,
            p + 54 * n <= b.len(),
            q == p + 54 * i,
            pictures_at(b@, p as int, i as nat) == Step::Next(pictures_view(pictures@), q as int),
        decreases n - i,
    {
        match parse_picture(b, q) {
            Ok(pc) => {
                let ghost before = pictures@;
                pictures.push(pc);
                assert(pictures_view(pictures@) =~= pictures_view(before).push(pc@));
                q = q + 54;
            },
            Err(s) => {
                proof {
                    lemma_pictures_stop(b@, p as int, (i + 1) as nat, n as nat);
                }
                return Err(s);
            },
        }
        i += 1;
    }
    Ok(pictures)
}

/// Reads the end of the file at `p`: markers and best times.
fn parse_tail(b: &[u8], p: usize) -> (r: Result<BestTimes, Stop>)
    requires
        p <= b.len(),
    ensures
        match r {
            Ok(bt) => tail_section(b@, p as int) == Step::Next(bt@, p + 696),
            Err(s) => tail_section(b@, p as int) == stop_step::<BestTimesView>(s),
        },
{
    reveal(tail_section);
    let expected = need_i32(b, p)?;
    if expected != EOD {
        return Err(Stop::Fail(ElmaError::EODMismatch));
    }
    if b.len() - (p + 4) < 688 {
        return Err(Stop::Abort);
    }
    let tables = crypt_top10(slice_subrange(b, p + 4, p + 692));
    let single = match parse_top10(slice_subrange(tables.as_slice(), 0, 344)) {
        Ok(v) => v,
        Err(e) => return Err(Stop::Fail(e)),
    };
    let multi = match parse_top10(slice_subrange(tables.as_slice(), 344, 688)) {
        Ok(v) => v,
        Err(e) => return Err(Stop::Fail(e)),
    };
    let expected = need_i32(b, p + 692)?;
    if expected != EOF {
        return Err(Stop::Fail(ElmaError::EOFMismatch));
    }
    Ok(BestTimes { single, multi })
}

/// The outcome of a read that stopped.
fn stop_parse(s: Stop) -> (r: LevelParse)
    ensures
        r@ == match s {
            Stop::Fail(e) => LevelParseView::Failed(e),
            Stop::Need(f, v) => LevelParseView::NeedCount(f, v),
            Stop::Abort => LevelParseView::OutOfBounds,
        },
{
    match s {
        Stop::Fail(e) => LevelParse::Failed(e),
        Stop::Need(f, v) => LevelParse::NeedCount(f, v),
        Stop::Abort => LevelParse::OutOfBounds,
    }
}

impl Level {
    /// Reads a level from the bytes of a level file. The three counts of
    /// the file are stored as floating-point numbers; `counts` holds those
    /// decoded so far, in file order. Where the next count is needed, the
    /// result names it and gives its bits; reading again with it decoded
    /// goes on.
    pub fn from_bytes(buffer: &[u8], counts: &[usize]) -> (r: LevelParse)
        ensures
            r@ == parse_level_spec(buffer@, counts@),
    {
        let h = match parse_header(buffer) {
            Ok(h) => h,
            Err(s) => return stop_parse(s),
        };
        if buffer.len() < 138 {
            return LevelParse::Failed(ElmaError::UnexpectedEof);
        }
        if counts.len() < 1 {
            let bits = match get_u64(buffer, 130) {
                Some(v) => v,
                None => return LevelParse::Failed(ElmaError::UnexpectedEof),
            };
            return LevelParse::NeedCount(CountField::Polygons, bits);
        }
        let (polygons, p1) = match parse_polygons(buffer, 138, counts[0]) {
            Ok(r) => r,
            Err(s) => return stop_parse(s),
        };
        let bits = match get_u64(buffer, p1) {
            Some(v) => v,
            None => return LevelParse::Failed(ElmaError::UnexpectedEof),
        };
        if counts.len() < 2 {
            return LevelParse::NeedCount(CountField::Objects, bits);
        }
        let object_bytes = match counts[1].checked_mul(28) {
            Some(v) => v,
            None => return LevelParse::OutOfBounds,
        };
        let q = p1 + 8;
        if object_bytes > buffer.len() - q {
            return LevelParse::OutOfBounds;
        }
        let objects = match parse_objects(buffer, q, counts[1]) {
            Ok(r) => r,
            Err(s) => return stop_parse(s),
        };
        let p2 = q + object_bytes;
        let bits = match get_u64(buffer, p2) {
            Some(v) => v,
            None => return LevelParse::Failed(ElmaError::UnexpectedEof),
        };
        if counts.len() < 3 {
            return LevelParse::NeedCount(CountField::Pictures, bits);
        }
        let picture_bytes = match counts[2].checked_mul(54) {
            Some(v) => v,
            None => return LevelParse::OutOfBounds,
        };
        let q = p2 + 8;
        if picture_bytes > buffer.len() - q {
            return LevelParse::OutOfBounds;
        }
        let pictures = match parse_pictures(buffer, q, counts[2]) {
            Ok(r) => r,
            Err(s) => return stop_parse(s),
        };
        let p3 = q + picture_bytes;
        let best_times = match parse_tail(buffer, p3) {
            Ok(bt) => bt,
            Err(s) => return stop_parse(s),
        };
        LevelParse::Done(
            Level {
                version: Version::Elma,
                link: h.link,
                integrity: h.integrity,
                title: h.title,
                lgr: h.lgr,
                ground: h.ground,
                sky: h.sky,
                polygons,
                objects,
                pictures,
                best_times,
            },
        )
    }
}

/// The object record at `q`: x at 0, y negated at 8, the type at 16 (1 exit,
/// 2 apple, 3 killer, 4 player), the gravity at 20 (0 none, 1 up, 2 down,
/// 3 left, 4 right; read for every object) and at 24 the apple's animation
/// less one.
pub proof fn lemma_object_fields(b: Seq<u8>, q: int)
    ensures
        ({
            let t = i32_at(b, q + 16);
            let g = i32_at(b, q + 20);
            let a = i32_at(b, q + 24);
            let position = Position { x: u64_at(b, q), y: neg_bits(u64_at(b, q + 8)) };
            let gravity = if g == 0 {
                GravityDirection::NoChange
            } else if g == 1 {
                GravityDirection::Up
            } else if g == 2 {
                GravityDirection::Down
            } else if g == 3 {
                GravityDirection::Left
            } else {
                GravityDirection::Right
            };
            &&& !(0 <= g <= 4) ==> object_at(b, q) == Step::<Object>::Fail(
                ElmaError::InvalidGravity(g),
            )
            &&& 0 <= g <= 4 && a == i32::MAX ==> object_at(b, q) == Step::<Object>::Abort
            &&& 0 <= g <= 4 && a != i32::MAX ==> object_at(b, q) == if t == 1 {
                Step::Next(Object { position, object_type: ObjectType::Exit }, q + 28)
            } else if t == 2 {
                Step::Next(
                    Object {
                        position,
                        object_type: ObjectType::Apple { gravity, animation: (a + 1) as i32 },
                    },
                    q + 28,
                )
            } else if t == 3 {
                Step::Next(Object { position, object_type: ObjectType::Killer }, q + 28)
            } else if t == 4 {
                Step::Next(Object { position, object_type: ObjectType::Player }, q + 28)
            } else {
                Step::Fail(ElmaError::InvalidObject(t))
            }
        }),
{
}

/// The picture record at `q`, once its three names are readable: name,
/// texture and mask in fields of ten bytes at 0, 10 and 20, x at 30, y
/// negated at 38, the distance at 46, and the clipping at 50 (0 unclipped,
/// 1 ground, 2 sky).
pub proof fn lemma_picture_fields(b: Seq<u8>, q: int)
    requires
        trim_spec(b.subrange(q, q + 10)) is Some,
        trim_spec(b.subrange(q + 10, q + 20)) is Some,
        trim_spec(b.subrange(q + 20, q + 30)) is Some,
    ensures
        ({
            let c = i32_at(b, q + 50);
            let view = PictureView {
                name: trim_spec(b.subrange(q, q + 10))->Some_0,
                texture: trim_spec(b.subrange(q + 10, q + 20))->Some_0,
                mask: trim_spec(b.subrange(q + 20, q + 30))->Some_0,
                position: Position { x: u64_at(b, q + 30), y: neg_bits(u64_at(b, q + 38)) },
                distance: i32_at(b, q + 46),
                clip: Clip::Sky,
            };
            &&& c == 0 ==> picture_at(b, q) == Step::Next(
                PictureView { clip: Clip::Unclipped, ..view },
                q + 54,
            )
            &&& c == 1 ==> picture_at(b, q) == Step::Next(
                PictureView { clip: Clip::Ground, ..view },
                q + 54,
            )
            &&& c == 2 ==> picture_at(b, q) == Step::Next(
                PictureView { clip: Clip::Sky, ..view },
                q + 54,
            )
            &&& !(0 <= c <= 2) ==> picture_at(b, q) == Step::<PictureView>::Fail(
                ElmaError::InvalidClipping(c),
            )
        }),
{
}

} // verus!
