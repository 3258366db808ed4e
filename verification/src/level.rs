//! The contents of a level: polygons, objects, pictures and best times.
use crate::top10::{BestTimes, BestTimesView};
use vstd::prelude::*;

verus! {

/// A point, held as the IEEE-754 bit patterns of its two `f64` coordinates.
#[derive(Clone, Copy, Debug, PartialEq, Eq, Structural)]
pub struct Position {
    /// Bits of the x coordinate.
    pub x: u64,
    /// Bits of the y coordinate.
    pub y: u64,
}

impl Position {
    /// A point from the bit patterns of its coordinates.
    pub fn new(x: u64, y: u64) -> (p: Self)
        ensures
            p == (Position { x, y }),
    {
        Position { x, y }
    }
}

impl Default for Position {
    fn default() -> (p: Self)
        ensures
            p == (Position { x: 0, y: 0 }),
    {
        Position { x: 0, y: 0 }
    }
}

/// The sign bit of an `f64`.
pub const SIGN_BIT: u64 = 0x8000_0000_0000_0000;

/// The bit pattern of `-v` where `v` has bit pattern `bits`: negating an
/// `f64` flips its sign bit.
pub open spec fn neg_bits(bits: u64) -> u64 {
    bits ^ SIGN_BIT
}

/// Negates the `f64` with bit pattern `bits`.
pub fn negate(bits: u64) -> (r: u64)
    ensures
        r == neg_bits(bits),
{
    bits ^ SIGN_BIT
}

/// Negating twice gives the value back.
pub proof fn lemma_neg_neg(bits: u64)
    ensures
        neg_bits(neg_bits(bits)) == bits,
{
    assert((bits ^ 0x8000_0000_0000_0000u64) ^ 0x8000_0000_0000_0000u64 == bits) by (bit_vector);
}

/// Game version of a level.
#[derive(Clone, Copy, Debug, PartialEq, Eq, Structural)]
pub enum Version {
    /// Across.
    Across,
    /// Elasto Mania.
    Elma,
}

/// Clipping of a picture.
#[derive(Clone, Copy, Debug, PartialEq, Eq, Structural)]
pub enum Clip {
    /// Drawn over everything.
    Unclipped,
    /// Clipped to the ground.
    Ground,
    /// Clipped to the sky.
    Sky,
}

impl Default for Clip {
    fn default() -> (c: Self)
        ensures
            c == Clip::Sky,
    {
        Clip::Sky
    }
}

/// Top10 save option.
#[derive(Clone, Copy, Debug, PartialEq, Eq, Structural)]
pub enum Top10Save {
    /// Yes. Will save best times into the file's top10 list.
    Yes,
    /// No. Will give an empty top10 best times list in level file.
    No,
}

/// Apple direction object.
#[derive(Clone, Copy, Debug, PartialEq, Eq, Structural)]
pub enum GravityDirection {
    /// No gravity change.
    NoChange,
    /// Gravity up.
    Up,
    /// Gravity down.
    Down,
    /// Gravity left.
    Left,
    /// Gravity right.
    Right,
}

impl Default for GravityDirection {
    fn default() -> (g: Self)
        ensures
            g == GravityDirection::NoChange,
    {
        GravityDirection::NoChange
    }
}

/// Type of object.
#[derive(Clone, Copy, Debug, PartialEq, Eq, Structural)]
pub enum ObjectType {
    /// Apple.
    Apple {
        /// Gravity change.
        gravity: GravityDirection,
        /// Animation number.
        animation: i32,
    },
    /// Flower/exit.
    Exit,
    /// Killer.
    Killer,
    /// Player/start.
    Player,
}

impl Default for ObjectType {
    fn default() -> (t: Self)
        ensures
            t == (ObjectType::Apple { gravity: GravityDirection::NoChange, animation: 1 }),
    {
        ObjectType::Apple { gravity: GravityDirection::NoChange, animation: 1 }
    }
}

/// Object struct. Every level requires one `ObjectType::Player` Object and at
/// least one `ObjectType::Exit` Object.
#[derive(Clone, Copy, Debug, PartialEq, Eq, Structural)]
pub struct Object {
    /// Position.
    pub position: Position,
    /// Type of Object, see `ObjectType`.
    pub object_type: ObjectType,
}

impl Default for Object {
    fn default() -> (o: Self)
        ensures
            o == (Object {
                position: Position { x: 0, y: 0 },
                object_type: ObjectType::Apple { gravity: GravityDirection::NoChange, animation: 1 },
            }),
    {
        Object { position: Position::default(), object_type: ObjectType::default() }
    }
}

impl Object {
    /// Create a new `Object`: an apple at the origin.
    pub fn new() -> (o: Self)
        ensures
            o == (Object {
                position: Position { x: 0, y: 0 },
                object_type: ObjectType::Apple { gravity: GravityDirection::NoChange, animation: 1 },
            }),
    {
        Object::default()
    }

    /// Returns whether this object is an Apple.
    pub fn is_apple(&self) -> (r: bool)
        ensures
            r == self.object_type is Apple,
    {
        match self.object_type {
            ObjectType::Apple { .. } => true,
            _ => false,
        }
    }

    /// Returns whether this object is Player.
    pub fn is_player(&self) -> (r: bool)
        ensures
            r == self.object_type is Player,
    {
        match self.object_type {
            ObjectType::Player => true,
            _ => false,
        }
    }
}

/// Polygon struct.
#[derive(Clone, Debug, PartialEq, Eq)]
pub struct Polygon {
    /// Grass polygon.
    pub grass: bool,
    /// All vertices.
    pub vertices: Vec<Position>,
}

/// What a `Polygon` holds.
pub struct PolygonView {
    pub grass: bool,
    pub vertices: Seq<Position>,
}

impl View for Polygon {
    type V = PolygonView;

    open spec fn view(&self) -> PolygonView {
        PolygonView { grass: self.grass, vertices: self.vertices@ }
    }
}

impl Default for Polygon {
    fn default() -> (p: Self)
        ensures
            p@ == (PolygonView { grass: false, vertices: Seq::empty() }),
    {
        Polygon::new()
    }
}

impl Polygon {
    /// Create a new empty polygon.
    pub fn new() -> (p: Self)
        ensures
            p@ == (PolygonView { grass: false, vertices: Seq::empty() }),
    {
        Polygon { grass: false, vertices: Vec::new() }
    }
}

/// Picture struct.
#[derive(Clone, Debug, PartialEq, Eq)]
pub struct Picture {
    /// Picture name.
    pub name: String,
    /// Texture name.
    pub texture: String,
    /// Mask name.
    pub mask: String,
    /// Position.
    pub position: Position,
    /// Z-distance
    pub distance: i32,
    /// Clipping.
    pub clip: Clip,
}

/// What a `Picture` holds.
pub struct PictureView {
    pub name: Seq<char>,
    pub texture: Seq<char>,
    pub mask: Seq<char>,
    pub position: Position,
    pub distance: i32,
    pub clip: Clip,
}

impl View for Picture {
    type V = PictureView;

    open spec fn view(&self) -> PictureView {
        PictureView {
            name: self.name@,
            texture: self.texture@,
            mask: self.mask@,
            position: self.position,
            distance: self.distance,
            clip: self.clip,
        }
    }
}

impl Picture {
    /// Creates a new picture with default values: a barrel at the origin,
    /// at distance 600.
    pub fn new() -> (p: Self)
        ensures
            p@ == (PictureView {
                name: "barrel"@,
                texture: Seq::empty(),
                mask: Seq::empty(),
                position: Position { x: 0, y: 0 },
                distance: 600,
                clip: Clip::Sky,
            }),
    {
        Picture {
            name: String::from_str("barrel"),
            texture: String::new(),
            mask: String::new(),
            position: Position::default(),
            distance: 600,
            clip: Clip::default(),
        }
    }
}

/// Level struct that contains all level information.
#[derive(Clone, Debug, PartialEq, Eq)]
pub struct Level {
    /// Elma or Across level.
    pub version: Version,
    /// Random number that links level file to replay files.
    pub link: u32,
    /// The four integrity checks, as `f64` bit patterns.
    pub integrity: [u64; 4],
    /// Level title.
    pub title: String,
    /// LGR file name.
    pub lgr: String,
    /// Ground texture name.
    pub ground: String,
    /// Sky texture name.
    pub sky: String,
    /// All polygons.
    pub polygons: Vec<Polygon>,
    /// All objects.
    pub objects: Vec<Object>,
    /// All pictures.
    pub pictures: Vec<Picture>,
    /// Best times lists.
    pub best_times: BestTimes,
}

/// What a `Level` holds.
pub struct LevelView {
    pub version: Version,
    pub link: u32,
    pub integrity: Seq<u64>,
    pub title: Seq<char>,
    pub lgr: Seq<char>,
    pub ground: Seq<char>,
    pub sky: Seq<char>,
    pub polygons: Seq<PolygonView>,
    pub objects: Seq<Object>,
    pub pictures: Seq<PictureView>,
    pub best_times: BestTimesView,
}

/// The views of a sequence of polygons.
pub open spec fn polygons_view(s: Seq<Polygon>) -> Seq<PolygonView> {
    s.map_values(|p: Polygon| p@)
}

/// The views of a sequence of pictures.
pub open spec fn pictures_view(s: Seq<Picture>) -> Seq<PictureView> {
    s.map_values(|p: Picture| p@)
}

impl View for Level {
    type V = LevelView;

    open spec fn view(&self) -> LevelView {
        LevelView {
            version: self.version,
            link: self.link,
            integrity: self.integrity@,
            title: self.title@,
            lgr: self.lgr@,
            ground: self.ground@,
            sky: self.sky@,
            polygons: polygons_view(self.polygons@),
            objects: self.objects@,
            pictures: pictures_view(self.pictures@),
            best_times: self.best_times@,
        }
    }
}

/// Bits of 0.0, 2.0, 7.0, 8.0, 15.0 and 0.4 (the object radius).
pub const F64_ZERO: u64 = 0x0;
pub const F64_TWO: u64 = 0x4000_0000_0000_0000;
pub const F64_SEVEN: u64 = 0x401C_0000_0000_0000;
pub const F64_EIGHT: u64 = 0x4020_0000_0000_0000;
pub const F64_FIFTEEN: u64 = 0x402E_0000_0000_0000;
pub const OBJECT_RADIUS: u64 = 0x3FD9_9999_9999_999A;

/// The level that `Level::new` makes with the link `link`.
pub open spec fn new_level_view(link: u32) -> LevelView {
    LevelView {
        version: Version::Elma,
        link,
        integrity: seq![0u64, 0u64, 0u64, 0u64],
        title: Seq::empty(),
        lgr: "default"@,
        ground: "ground"@,
        sky: "sky"@,
        polygons: seq![
            PolygonView {
                grass: false,
                vertices: seq![
                    Position { x: F64_ZERO, y: F64_ZERO },
                    Position { x: F64_ZERO, y: F64_SEVEN },
                    Position { x: F64_FIFTEEN, y: F64_SEVEN },
                    Position { x: F64_FIFTEEN, y: F64_ZERO },
                ],
            },
        ],
        objects: seq![
            Object {
                position: Position { x: F64_TWO, y: OBJECT_RADIUS },
                object_type: ObjectType::Player,
            },
            Object {
                position: Position { x: F64_EIGHT, y: OBJECT_RADIUS },
                object_type: ObjectType::Exit,
            },
        ],
        pictures: Seq::empty(),
        best_times: BestTimesView { single: Seq::empty(), multi: Seq::empty() },
    }
}

impl Level {
    /// Returns a new `Level`: a 15 by 7 box with a player and a flower.
    /// `link` is the number that links the level to its replays; new levels
    /// get a freshly drawn random one.
    pub fn new(link: u32) -> (l: Self)
        ensures
            l@ == new_level_view(link),
    {
        let mut vertices: Vec<Position> = Vec::new();
        vertices.push(Position::new(F64_ZERO, F64_ZERO));
        vertices.push(Position::new(F64_ZERO, F64_SEVEN));
        vertices.push(Position::new(F64_FIFTEEN, F64_SEVEN));
        vertices.push(Position::new(F64_FIFTEEN, F64_ZERO));
        assert(vertices@ =~= new_level_view(0).polygons[0].vertices);
        let mut polygons: Vec<Polygon> = Vec::new();
        polygons.push(Polygon { grass: false, vertices });
        let mut objects: Vec<Object> = Vec::new();
        objects.push(
            Object {
                position: Position::new(F64_TWO, OBJECT_RADIUS),
                object_type: ObjectType::Player,
            },
        );
        objects.push(
            Object {
                position: Position::new(F64_EIGHT, OBJECT_RADIUS),
                object_type: ObjectType::Exit,
            },
        );
        let l = Level {
            version: Version::Elma,
            link,
            integrity: [0u64; 4],
            title: String::new(),
            lgr: String::from_str("default"),
            ground: String::from_str("ground"),
            sky: String::from_str("sky"),
            polygons,
            objects,
            pictures: Vec::new(),
            best_times: BestTimes::default(),
        };
        assert(l@.polygons =~= new_level_view(l.link).polygons);
        assert(l@.objects =~= new_level_view(l.link).objects);
        assert(l@.pictures =~= Seq::<PictureView>::empty());
        assert(l@.best_times.single =~= Seq::<crate::top10::TimeEntryView>::empty());
        assert(l@.best_times.multi =~= Seq::<crate::top10::TimeEntryView>::empty());
        assert(l@.integrity =~= seq![0u64, 0u64, 0u64, 0u64]);
        l
    }

    /// Gives the level a new link number, `link`, a freshly drawn random
    /// number. When you save a level, it will keep the original link number
    /// unless explicitly changed manually or by running this function before
    /// saving.
    pub fn generate_link(&mut self, link: u32)
        ensures
            final(self)@ == (LevelView { link, ..old(self)@ }),
    {
        self.link = link;
    }
}

} // verus!
