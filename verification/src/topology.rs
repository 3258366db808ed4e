//! Checks of a level's object counts and polygon shapes.
use crate::level::{new_level_view, Level, LevelView, Object, ObjectType, PolygonView};
use vstd::prelude::*;

verus! {

/// Topology related errors that do not involve the level's dimensions.
#[derive(Clone, Debug, PartialEq, Eq)]
pub enum TopologyError {
    /// Polygon has too few or too many vertices, with list of erroneous polygons' indexes.
    InvalidVertexCount(Vec<usize>),
    /// Too many objects, with number of excess object count.
    MaxObjects(usize),
    /// Too many pictures, with number of excess picture count.
    MaxPictures(usize),
    /// Too many polygons, with number of excess polygon count.
    MaxPolygons(usize),
    /// Too many players/starts, with number of excess player count (zero
    /// where the level has no player at all).
    InvalidPlayerCount(usize),
    /// Missing exit/flower.
    MissingExit,
}

/// Number of players among `s`.
pub open spec fn player_count(s: Seq<Object>) -> nat
    decreases s.len(),
{
    if s.len() == 0 {
        0
    } else {
        player_count(s.drop_last()) + if s.last().object_type is Player {
            1nat
        } else {
            0nat
        }
    }
}

/// Number of exits among `s`.
pub open spec fn exit_count(s: Seq<Object>) -> nat
    decreases s.len(),
{
    if s.len() == 0 {
        0
    } else {
        exit_count(s.drop_last()) + if s.last().object_type is Exit {
            1nat
        } else {
            0nat
        }
    }
}

/// How many players there are beyond the one a level needs.
pub open spec fn excess_players(count: nat) -> nat {
    if count > 1 {
        (count - 1) as nat
    } else {
        0
    }
}

/// The first limit a level breaks: at most 1000 polygons, 252 objects and
/// 5000 pictures, exactly one player and at least one exit.
pub open spec fn objects_check(l: LevelView) -> Result<(), TopologyError> {
    if l.polygons.len() > 1000 {
        Err(TopologyError::MaxPolygons((l.polygons.len() - 1000) as usize))
    } else if l.objects.len() > 252 {
        Err(TopologyError::MaxObjects((l.objects.len() - 252) as usize))
    } else if l.pictures.len() > 5000 {
        Err(TopologyError::MaxPictures((l.pictures.len() - 5000) as usize))
    } else if player_count(l.objects) != 1 {
        Err(TopologyError::InvalidPlayerCount(excess_players(player_count(l.objects)) as usize))
    } else if exit_count(l.objects) < 1 {
        Err(TopologyError::MissingExit)
    } else {
        Ok(())
    }
}

/// Indexes of the polygons with fewer than three vertices, in order.
pub open spec fn bad_polygons(ps: Seq<PolygonView>) -> Seq<usize>
    decreases ps.len(),
{
    if ps.len() == 0 {
        Seq::empty()
    } else {
        bad_polygons(ps.drop_last()) + if ps.last().vertices.len() < 3 {
            seq![(ps.len() - 1) as usize]
        } else {
            Seq::empty()
        }
    }
}

impl Level {
    /// Checks the object, polygon and picture counts.
    pub fn check_objects(&self) -> (r: Result<(), TopologyError>)
        ensures
            r == objects_check(self@),
    {
        if self.polygons.len() > 1000 {
            return Err(TopologyError::MaxPolygons(self.polygons.len() - 1000));
        }
        if self.objects.len() > 252 {
            return Err(TopologyError::MaxObjects(self.objects.len() - 252));
        }
        if self.pictures.len() > 5000 {
            return Err(TopologyError::MaxPictures(self.pictures.len() - 5000));
        }
        let mut player_total: usize = 0;
        let mut exit_total: usize = 0;
        let mut i: usize = 0;
        while i < self.objects.len()
            invariant
                i <= self.objects.len() <= 252,
                player_total == player_count(self.objects@.take(i as int)),
                exit_total == exit_count(self.objects@.take(i as int)),
                player_total <= i,
                exit_total <= i,
            decreases self.objects.len() - i,
        {
            assert(self.objects@.take(i + 1).drop_last() =~= self.objects@.take(i as int));
            if self.objects[i].is_player() {
                player_total = player_total + 1;
            }
            if let ObjectType::Exit = self.objects[i].object_type {
                exit_total = exit_total + 1;
            }
            i += 1;
        }
        assert(self.objects@.take(self.objects.len() as int) =~= self.objects@);
        if player_total != 1 {
            let excess: usize = if player_total > 1 {
                player_total - 1
            } else {
                0
            };
            return Err(TopologyError::InvalidPlayerCount(excess));
        }
        if exit_total < 1 {
            return Err(TopologyError::MissingExit);
        }
        Ok(())
    }

    /// Checks that every polygon has at least three vertices; the error
    /// lists the indexes of those that do not.
    pub fn check_vertex_count(&self) -> (r: Result<(), TopologyError>)
        ensures
            match r {
                Ok(()) => bad_polygons(self@.polygons).len() == 0,
                Err(TopologyError::InvalidVertexCount(v)) => v@ == bad_polygons(self@.polygons)
                    && v@.len() > 0,
                Err(_) => false,
            },
    {
        let mut error_polygons: Vec<usize> = Vec::new();
        let mut n: usize = 0;
        while n < self.polygons.len()
            invariant
                n <= self.polygons.len(),
                error_polygons@ == bad_polygons(self@.polygons.take(n as int)),
            decreases self.polygons.len() - n,
        {
            assert(self@.polygons.take(n + 1).drop_last() =~= self@.polygons.take(n as int));
            assert(self@.polygons.take(n + 1).last() == self.polygons@[n as int]@);
            if self.polygons[n].vertices.len() < 3 {
                error_polygons.push(n);
            }
            n += 1;
            assert(error_polygons@ =~= bad_polygons(self@.polygons.take(n as int)));
        }
        assert(self@.polygons.take(self.polygons.len() as int) =~= self@.polygons);
        if error_polygons.len() > 0 {
            return Err(TopologyError::InvalidVertexCount(error_polygons));
        }
        Ok(())
    }
}

/// A new level has one player, one exit, and a polygon of four vertices, so
/// it passes both checks.
pub proof fn lemma_new_level_checks(link: u32)
    ensures
        objects_check(new_level_view(link)) == Ok::<(), TopologyError>(()),
        bad_polygons(new_level_view(link).polygons).len() == 0,
{
    let l = new_level_view(link);
    let first = seq![l.objects[0]];
    assert(l.objects.drop_last() =~= first);
    assert(first.drop_last() =~= Seq::<Object>::empty());
    assert(first.last() == l.objects[0]);
    assert(player_count(Seq::<Object>::empty()) == 0);
    assert(exit_count(Seq::<Object>::empty()) == 0);
    assert(l.polygons.drop_last() =~= Seq::<PolygonView>::empty());
    assert(player_count(first) == 1);
    assert(exit_count(first) == 0);
    assert(player_count(l.objects) == 1);
    assert(exit_count(l.objects) == 1);
    assert(l.polygons.last().vertices.len() == 4);
    assert(bad_polygons(Seq::<PolygonView>::empty()) =~= Seq::<usize>::empty());
    assert(bad_polygons(l.polygons) =~= bad_polygons(l.polygons.drop_last()) + Seq::<usize>::empty());
    assert(bad_polygons(l.polygons) =~= Seq::<usize>::empty());
}

/// The counts are of objects by type: `player_count` is the number of
/// objects of type `Player`, `exit_count` the number of type `Exit`.
pub proof fn lemma_counts_by_type(s: Seq<Object>)
    ensures
        player_count(s) == s.filter(|o: Object| o.object_type is Player).len(),
        exit_count(s) == s.filter(|o: Object| o.object_type is Exit).len(),
    decreases s.len(),
{
    reveal(Seq::filter);
    if s.len() > 0 {
        lemma_counts_by_type(s.drop_last());
    }
}

/// There is an exit exactly when the exit count is not zero.
proof fn lemma_exit_exists(s: Seq<Object>)
    ensures
        exit_count(s) > 0 <==> exists|k: int| 0 <= k < s.len() && (#[trigger] s[k]).object_type is Exit,
    decreases s.len(),
{
    if s.len() > 0 {
        let init = s.drop_last();
        lemma_exit_exists(init);
        if exit_count(init) > 0 {
            let k = choose|k: int| 0 <= k < init.len() && (#[trigger] init[k]).object_type is Exit;
            assert(s[k] == init[k]);
        }
        if exists|k: int| 0 <= k < s.len() && (#[trigger] s[k]).object_type is Exit {
            let k = choose|k: int| 0 <= k < s.len() && (#[trigger] s[k]).object_type is Exit;
            if k < s.len() - 1 {
                assert(init[k] == s[k]);
            }
        }
    }
}

/// A level passes the object check exactly when it has at most 1000
/// polygons, 252 objects and 5000 pictures, exactly one object of type
/// `Player`, and some object of type `Exit`; a level without an exit fails.
pub proof fn lemma_objects_check_ok(l: LevelView)
    ensures
        objects_check(l) == Ok::<(), TopologyError>(()) <==> {
            &&& l.polygons.len() <= 1000
            &&& l.objects.len() <= 252
            &&& l.pictures.len() <= 5000
            &&& l.objects.filter(|o: Object| o.object_type is Player).len() == 1
            &&& exists|k: int| 0 <= k < l.objects.len() && (#[trigger] l.objects[k]).object_type is Exit
        },
{
    lemma_counts_by_type(l.objects);
    lemma_exit_exists(l.objects);
}

} // verus!
