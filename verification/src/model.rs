use vstd::prelude::*;
use crate::direction::{Dir, Side};

verus! {

/// A place on a track and a direction of travel there. `offset` is in
/// millimetres from the track's begin.
#[derive(Copy, Clone, Debug, PartialEq, Eq, Structural)]
pub struct BrCursor {
    pub track: usize,
    pub offset: i64,
    pub dir: Dir,
}

/// How a track ends: it stops, it leaves the model at a named boundary, or it
/// goes on through a connection `(id, ref)`.
#[derive(Debug)]
pub enum BrTrackEnd {
    Stop,
    Boundary(String),
    Connection((String, String)),
}

/// An object along a track, at `pos` millimetres from the track's begin.
#[derive(Clone, Debug)]
pub struct BrObject {
    pub name: String,
    pub pos: i64,
    pub data: BrObjectData,
}

/// What an object is. Lengths (`sight`, `distance`) are in millimetres.
#[derive(Debug)]
pub enum BrObjectData {
    Signal { dir: Dir, sight: i64 },
    Sight { dir: Dir, signal: String, distance: i64 },
    Detector,
    Switch { dir: Dir, side: Side, conn: (String, String) },
}

/// A track: a line with objects along it, where other tracks may branch off
/// at switches. `length` is in millimetres.
#[derive(Clone, Debug)]
pub struct BrTrack {
    pub name: String,
    pub begin: BrTrackEnd,
    pub objs: Vec<BrObject>,
    pub length: i64,
    pub end: BrTrackEnd,
}

/// The key of a connection as the model reads it: two names.
pub open spec fn key_view(k: (String, String)) -> (Seq<char>, Seq<char>) {
    (k.0@, k.1@)
}

/// The cursor stored last for each connection key.
pub open spec fn lookup_last(
    entries: Seq<((String, String), BrCursor)>,
    k: (Seq<char>, Seq<char>),
) -> Option<BrCursor>
    decreases entries.len(),
{
    if entries.len() == 0 {
        None
    } else if key_view(entries.last().0) == k {
        Some(entries.last().1)
    } else {
        lookup_last(entries.drop_last(), k)
    }
}

/// A map from connection keys to cursors.
pub struct ConnectionMap {
    entries: Vec<((String, String), BrCursor)>,
}

impl View for ConnectionMap {
    type V = Map<(Seq<char>, Seq<char>), BrCursor>;

    closed spec fn view(&self) -> Map<(Seq<char>, Seq<char>), BrCursor> {
        Map::new(
            |k: (Seq<char>, Seq<char>)| lookup_last(self.entries@, k) is Some,
            |k: (Seq<char>, Seq<char>)| lookup_last(self.entries@, k).unwrap(),
        )
    }
}

impl ConnectionMap {
    /// An empty map.
    pub fn new() -> (m: ConnectionMap)
        ensures
            m@ == Map::<(Seq<char>, Seq<char>), BrCursor>::empty(),
    {
        let m = ConnectionMap { entries: Vec::new() };
        assert(m@ =~= Map::<(Seq<char>, Seq<char>), BrCursor>::empty());
        m
    }

    /// Maps `key` to `cursor`, replacing what it was mapped to.
    pub fn insert(&mut self, key: (String, String), cursor: BrCursor)
        ensures
            final(self)@ == old(self)@.insert(key_view(key), cursor),
    {
        let ghost k = key_view(key);
        self.entries.push((key, cursor));
        assert(self.entries@.drop_last() =~= old(self).entries@);
        assert(self@ =~= old(self)@.insert(k, cursor));
    }

    /// The cursor that `key` is mapped to, if any.
    pub fn get(&self, key: &(String, String)) -> (r: Option<BrCursor>)
        ensures
            r == (if self@.contains_key(key_view(*key)) {
                Some(self@[key_view(*key)])
            } else {
                None
            }),
    {
        let mut i: usize = self.entries.len();
        assert(self.entries@.take(i as int) =~= self.entries@);
        while i > 0
            invariant
                i <= self.entries@.len(),
                lookup_last(self.entries@, key_view(*key)) == lookup_last(
                    self.entries@.take(i as int),
                    key_view(*key),
                ),
            decreases i,
        {
            let ghost t = self.entries@.take(i as int);
            assert(t.drop_last() =~= self.entries@.take(i - 1));
            let e = &self.entries[i - 1];
            if e.0.0 == key.0 && e.0.1 == key.1 {
                return Some(e.1);
            }
            i = i - 1;
        }
        None
    }

    /// Whether `key` is mapped to a cursor.
    pub fn contains_key(&self, key: &(String, String)) -> (r: bool)
        ensures
            r == self@.contains_key(key_view(*key)),
    {
        self.get(key).is_some()
    }
}

/// What `ConnectionMap::get` gives after `ConnectionMap::insert` (stated over
/// the map's view, which both contracts use): the cursor just written for its
/// key, and for any other key what it gave before.
pub proof fn law_connection_read_after_write(
    before: Map<(Seq<char>, Seq<char>), BrCursor>,
    key: (Seq<char>, Seq<char>),
    cursor: BrCursor,
    other: (Seq<char>, Seq<char>),
)
    ensures
        before.insert(key, cursor).contains_key(key),
        before.insert(key, cursor)[key] == cursor,
        other != key ==> before.insert(key, cursor).contains_key(other) == before.contains_key(
            other,
        ),
        other != key && before.contains_key(other) ==> before.insert(key, cursor)[other]
            == before[other],
{
}

/// A set of connection keys.
pub struct ConnectionSet {
    entries: Vec<(String, String)>,
}

impl View for ConnectionSet {
    type V = Set<(Seq<char>, Seq<char>)>;

    closed spec fn view(&self) -> Set<(Seq<char>, Seq<char>)> {
        Set::new(
            |k: (Seq<char>, Seq<char>)|
                exists|i: int| 0 <= i < self.entries@.len() && #[trigger] key_view(self.entries@[i]) == k,
        )
    }
}

impl ConnectionSet {
    /// An empty set.
    pub fn new() -> (s: ConnectionSet)
        ensures
            s@ == Set::<(Seq<char>, Seq<char>)>::empty(),
    {
        let s = ConnectionSet { entries: Vec::new() };
        assert(s@ =~= Set::<(Seq<char>, Seq<char>)>::empty());
        s
    }

    /// Adds `key` to the set.
    pub fn insert(&mut self, key: (String, String))
        ensures
            final(self)@ == old(self)@.insert(key_view(key)),
    {
        let ghost k = key_view(key);
        self.entries.push(key);
        assert forall|x: (Seq<char>, Seq<char>)| #[trigger] old(self)@.contains(x) implies self@.contains(x) by {
            let i = choose|i: int| 0 <= i < old(self).entries@.len() && #[trigger] key_view(old(self).entries@[i]) == x;
            assert(self.entries@[i] == old(self).entries@[i]);
        }
        assert(key_view(self.entries@[self.entries@.len() - 1]) == k);
        assert forall|x: (Seq<char>, Seq<char>)| #[trigger] self@.contains(x) implies old(self)@.insert(k).contains(x) by {
            let i = choose|i: int| 0 <= i < self.entries@.len() && #[trigger] key_view(self.entries@[i]) == x;
            if i < old(self).entries@.len() {
                assert(self.entries@[i] == old(self).entries@[i]);
            }
        }
        assert(self@ =~= old(self)@.insert(k));
    }

    /// Whether `key` is in the set.
    pub fn contains(&self, key: &(String, String)) -> (r: bool)
        ensures
            r == self@.contains(key_view(*key)),
    {
        let n: usize = self.entries.len();
        let mut i: usize = 0;
        while i < n
            invariant
                n == self.entries@.len(),
                i <= n,
                forall|j: int| 0 <= j < i ==> key_view(#[trigger] self.entries@[j]) != key_view(*key),
            decreases n - i,
        {
            let e = &self.entries[i];
            if e.0 == key.0 && e.1 == key.1 {
                assert(key_view(self.entries@[i as int]) == key_view(*key));
                return true;
            }
            i = i + 1;
        }
        false
    }
}

/// The branching model of an infrastructure: its tracks, where each
/// connection leads (a cursor on the track it enters), and which connections
/// are the branches of switches.
pub struct BranchingModel {
    pub tracks: Vec<BrTrack>,
    pub connections: ConnectionMap,
    pub switch_conns: ConnectionSet,
}

// ---- the model read as mathematical values ----

pub enum TrackEndView {
    Stop,
    Boundary(Seq<char>),
    Connection((Seq<char>, Seq<char>)),
}

pub enum ObjectDataView {
    Signal { dir: Dir, sight: i64 },
    Sight { dir: Dir, signal: Seq<char>, distance: i64 },
    Detector,
    Switch { dir: Dir, side: Side, conn: (Seq<char>, Seq<char>) },
}

pub struct ObjectView {
    pub name: Seq<char>,
    pub pos: i64,
    pub data: ObjectDataView,
}

pub struct TrackView {
    pub name: Seq<char>,
    pub begin: TrackEndView,
    pub objs: Seq<ObjectView>,
    pub length: i64,
    pub end: TrackEndView,
}

pub struct ModelView {
    pub tracks: Seq<TrackView>,
    pub connections: Map<(Seq<char>, Seq<char>), BrCursor>,
    pub switch_conns: Set<(Seq<char>, Seq<char>)>,
}

impl View for BrTrackEnd {
    type V = TrackEndView;

    open spec fn view(&self) -> TrackEndView {
        match self {
            BrTrackEnd::Stop => TrackEndView::Stop,
            BrTrackEnd::Boundary(s) => TrackEndView::Boundary(s@),
            BrTrackEnd::Connection(c) => TrackEndView::Connection(key_view(*c)),
        }
    }
}

impl View for BrObjectData {
    type V = ObjectDataView;

    open spec fn view(&self) -> ObjectDataView {
        match self {
            BrObjectData::Signal { dir, sight } => ObjectDataView::Signal { dir: *dir, sight: *sight },
            BrObjectData::Sight { dir, signal, distance } => ObjectDataView::Sight {
                dir: *dir,
                signal: signal@,
                distance: *distance,
            },
            BrObjectData::Detector => ObjectDataView::Detector,
            BrObjectData::Switch { dir, side, conn } => ObjectDataView::Switch {
                dir: *dir,
                side: *side,
                conn: key_view(*conn),
            },
        }
    }
}

impl Clone for BrTrackEnd {
    fn clone(&self) -> (r: Self)
        ensures
            r@ == self@,
    {
        match self {
            BrTrackEnd::Stop => BrTrackEnd::Stop,
            BrTrackEnd::Boundary(s) => BrTrackEnd::Boundary(s.clone()),
            BrTrackEnd::Connection(c) => BrTrackEnd::Connection((c.0.clone(), c.1.clone())),
        }
    }
}

impl Clone for BrObjectData {
    fn clone(&self) -> (r: Self)
        ensures
            r@ == self@,
    {
        match self {
            BrObjectData::Signal { dir, sight } => BrObjectData::Signal { dir: *dir, sight: *sight },
            BrObjectData::Sight { dir, signal, distance } => BrObjectData::Sight {
                dir: *dir,
                signal: signal.clone(),
                distance: *distance,
            },
            BrObjectData::Detector => BrObjectData::Detector,
            BrObjectData::Switch { dir, side, conn } => BrObjectData::Switch {
                dir: *dir,
                side: *side,
                conn: (conn.0.clone(), conn.1.clone()),
            },
        }
    }
}

impl View for BrObject {
    type V = ObjectView;

    open spec fn view(&self) -> ObjectView {
        ObjectView { name: self.name@, pos: self.pos, data: self.data@ }
    }
}

/// The objects of a sequence, each read as a value.
pub open spec fn objects_view(objs: Seq<BrObject>) -> Seq<ObjectView> {
    objs.map_values(|o: BrObject| o@)
}

impl View for BrTrack {
    type V = TrackView;

    open spec fn view(&self) -> TrackView {
        TrackView {
            name: self.name@,
            begin: self.begin@,
            objs: objects_view(self.objs@),
            length: self.length,
            end: self.end@,
        }
    }
}

/// The tracks of a sequence, each read as a value.
pub open spec fn tracks_view(tracks: Seq<BrTrack>) -> Seq<TrackView> {
    tracks.map_values(|t: BrTrack| t@)
}

impl View for BranchingModel {
    type V = ModelView;

    open spec fn view(&self) -> ModelView {
        ModelView {
            tracks: tracks_view(self.tracks@),
            connections: self.connections@,
            switch_conns: self.switch_conns@,
        }
    }
}

} // verus!
