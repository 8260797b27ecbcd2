use vstd::prelude::*;
use crate::direction::Dir;
use crate::length::fits_i64;
use crate::model::{
    BrCursor, BrObject, BrObjectData, BrTrack, BrTrackEnd, BranchingModel, ModelView,
    ObjectDataView, ObjectView, TrackEndView, TrackView, objects_view,
};

verus! {

/// Where a walk stops: after the whole distance (`Arrived`), at the end of the
/// model (`End`), or in front of a switch. Each stop but `Arrived` gives the
/// distance walked on the last track and the cursors just before and just
/// after the place (and, at a facing switch, the cursor on the branch).
#[derive(Copy, Clone, Debug, PartialEq, Eq, Structural)]
pub enum WalkResult {
    Arrived(BrCursor),
    End(i64, BrCursor),
    TrailingSwitch(i64, BrCursor, BrCursor),
    FacingSwitch(i64, BrCursor, BrCursor, BrCursor),
}

/// What happens on the track under a cursor: the walk stops, it goes on
/// from another cursor with the distance that is left, or it cannot go on
/// (no such track, a facing switch whose branch leads nowhere, or a length
/// beyond 64 bits).
#[derive(Copy, Clone, Debug, PartialEq, Eq, Structural)]
pub enum WalkStep {
    Stop(WalkResult),
    Hop(BrCursor, i64),
    Stuck,
}

/// How a walk with a bounded number of hops between tracks ends.
#[derive(Copy, Clone, Debug, PartialEq, Eq, Structural)]
pub enum WalkOutcome {
    Done(WalkResult),
    Stuck,
    OutOfHops,
}

pub open spec fn spec_abs(x: int) -> int {
    if x < 0 {
        -x
    } else {
        x
    }
}

/// A cursor on `track` at `offset`, facing `dir`.
pub open spec fn cursor_at(track: usize, offset: int, dir: Dir) -> BrCursor {
    BrCursor { track, offset: offset as i64, dir }
}

/// Whether `o` lies between the cursor and `dist` ahead of it.
pub open spec fn in_reach(o: ObjectView, c: BrCursor, dist: i64) -> bool {
    match c.dir {
        Dir::Up => c.offset <= o.pos && o.pos <= c.offset + dist,
        Dir::Down => c.offset - dist <= o.pos && o.pos <= c.offset,
    }
}

/// Whether `o` lies ahead of the cursor (or at it), further than `dist`.
pub open spec fn beyond_reach(o: ObjectView, c: BrCursor, dist: i64) -> bool {
    match c.dir {
        Dir::Up => c.offset <= o.pos && o.pos > c.offset + dist,
        Dir::Down => o.pos <= c.offset && o.pos < c.offset - dist,
    }
}

pub open spec fn is_switch(o: ObjectView) -> bool {
    o.data is Switch
}

/// Whether a walk in direction `dir` meets object number `i` (`a`) before
/// object number `j` (`b`): the nearer one first, and of two at the same
/// place the one listed first.
pub open spec fn met_before(a: ObjectView, i: int, b: ObjectView, j: int, dir: Dir) -> bool {
    match dir {
        Dir::Up => a.pos < b.pos || (a.pos == b.pos && i < j),
        Dir::Down => a.pos > b.pos || (a.pos == b.pos && i < j),
    }
}

/// Whether object `i` is, among the first `n` objects, the switch within
/// reach that the walk meets first.
pub open spec fn first_switch_among(objs: Seq<ObjectView>, n: int, c: BrCursor, dist: i64, i: int) -> bool {
    &&& 0 <= i < n
    &&& is_switch(objs[i])
    &&& in_reach(objs[i], c, dist)
    &&& forall|j: int|
        0 <= j < n && j != i && is_switch(#[trigger] objs[j]) && in_reach(objs[j], c, dist)
            ==> met_before(objs[i], i, objs[j], j, c.dir)
}

/// Whether object `i` is the switch within reach that the walk meets first.
pub open spec fn first_switch(objs: Seq<ObjectView>, c: BrCursor, dist: i64, i: int) -> bool {
    first_switch_among(objs, objs.len() as int, c, dist, i)
}

/// Where the walk stops at switch `o`, met `d` after the cursor.
pub open spec fn switch_stop(m: ModelView, c: BrCursor, o: ObjectView, delta: i64) -> WalkStep {
    let d: int = spec_abs(o.pos - c.offset);
    let before: int = o.pos - delta;
    let after: int = o.pos + delta;
    if !(fits_i64(d) && fits_i64(before) && fits_i64(after)) {
        WalkStep::Stuck
    } else {
        match o.data {
            ObjectDataView::Switch { dir, conn, .. } => if dir == c.dir {
                if m.connections.contains_key(conn) {
                    let branch = m.connections[conn];
                    match c.dir {
                        Dir::Up => WalkStep::Stop(
                            WalkResult::FacingSwitch(
                                d as i64,
                                cursor_at(c.track, before, c.dir),
                                cursor_at(c.track, after, c.dir),
                                branch,
                            ),
                        ),
                        Dir::Down => WalkStep::Stop(
                            WalkResult::FacingSwitch(
                                d as i64,
                                cursor_at(c.track, after, c.dir),
                                cursor_at(c.track, before, c.dir),
                                branch,
                            ),
                        ),
                    }
                } else {
                    WalkStep::Stuck
                }
            } else {
                WalkStep::Stop(
                    WalkResult::TrailingSwitch(
                        d as i64,
                        cursor_at(c.track, before, c.dir),
                        cursor_at(c.track, after, c.dir),
                    ),
                )
            },
            _ => WalkStep::Stuck,
        }
    }
}

/// Where the walk goes when no switch is within reach and nothing lies
/// beyond reach: the walk ends within the track if the track is long enough,
/// else it reaches the track's end (its begin, walking down) and stops there,
/// stops in front of a switch joined there, or goes on through the
/// connection there.
pub open spec fn track_end_step(m: ModelView, c: BrCursor, t: TrackView, dist: i64, delta: i64) -> WalkStep {
    let rem: int = match c.dir {
        Dir::Up => t.length - c.offset,
        Dir::Down => c.offset as int,
    };
    let target: int = match c.dir {
        Dir::Up => c.offset + dist,
        Dir::Down => c.offset - dist,
    };
    let end_offset: int = match c.dir {
        Dir::Up => t.length - delta,
        Dir::Down => delta as int,
    };
    let kind = match c.dir {
        Dir::Up => t.end,
        Dir::Down => t.begin,
    };
    let d: int = spec_abs(rem);
    if rem > dist {
        if fits_i64(target) {
            WalkStep::Stop(WalkResult::Arrived(cursor_at(c.track, target, c.dir)))
        } else {
            WalkStep::Stuck
        }
    } else if !(fits_i64(rem) && fits_i64(d) && fits_i64(end_offset)) {
        WalkStep::Stuck
    } else {
        let end = cursor_at(c.track, end_offset, c.dir);
        match kind {
            TrackEndView::Connection(k) => if m.connections.contains_key(k) {
                if m.switch_conns.contains(k) {
                    WalkStep::Stop(WalkResult::TrailingSwitch(d as i64, end, m.connections[k]))
                } else if fits_i64(dist - d) {
                    WalkStep::Hop(m.connections[k], (dist - d) as i64)
                } else {
                    WalkStep::Stuck
                }
            } else {
                WalkStep::Stop(WalkResult::End(d as i64, end))
            },
            _ => WalkStep::Stop(WalkResult::End(d as i64, end)),
        }
    }
}

/// What happens on the track under cursor `c` when `dist` is left to walk.
pub open spec fn walk_step_spec(m: ModelView, c: BrCursor, dist: i64, delta: i64) -> WalkStep {
    if c.track >= m.tracks.len() {
        WalkStep::Stuck
    } else {
        let t = m.tracks[c.track as int];
        if exists|i: int| first_switch(t.objs, c, dist, i) {
            let i = choose|i: int| first_switch(t.objs, c, dist, i);
            switch_stop(m, c, t.objs[i], delta)
        } else if exists|j: int| 0 <= j < t.objs.len() && beyond_reach(#[trigger] t.objs[j], c, dist) {
            let target: int = match c.dir {
                Dir::Up => c.offset + dist,
                Dir::Down => c.offset - dist,
            };
            if fits_i64(target) {
                WalkStep::Stop(WalkResult::Arrived(cursor_at(c.track, target, c.dir)))
            } else {
                WalkStep::Stuck
            }
        } else {
            track_end_step(m, c, t, dist, delta)
        }
    }
}

/// How a walk of `dist` from `c` ends when it may pass from track to track
/// through at most `hops` connections.
pub open spec fn walk_within(m: ModelView, c: BrCursor, dist: i64, delta: i64, hops: nat) -> WalkOutcome
    decreases hops,
{
    match walk_step_spec(m, c, dist, delta) {
        WalkStep::Stop(r) => WalkOutcome::Done(r),
        WalkStep::Stuck => WalkOutcome::Stuck,
        WalkStep::Hop(next, left) => if hops == 0 {
            WalkOutcome::OutOfHops
        } else {
            walk_within(m, next, left, delta, (hops - 1) as nat)
        },
    }
}

/// Whether the walk of `dist` from `c` ends somewhere.
pub open spec fn walk_ends(m: ModelView, c: BrCursor, dist: i64, delta: i64) -> bool {
    exists|hops: nat| #[trigger] walk_within(m, c, dist, delta, hops) is Done
}

/// Where the walk of `dist` from `c` ends, if it does.
pub open spec fn spec_walk(m: ModelView, c: BrCursor, dist: i64, delta: i64) -> WalkResult {
    let hops = choose|hops: nat| #[trigger] walk_within(m, c, dist, delta, hops) is Done;
    walk_within(m, c, dist, delta, hops)->Done_0
}

fn object_in_reach(o: &BrObject, c: &BrCursor, dist: i64) -> (r: bool)
    ensures
        r == in_reach(o@, *c, dist),
{
    let pos: i128 = o.pos as i128;
    let off: i128 = c.offset as i128;
    let d: i128 = dist as i128;
    match c.dir {
        Dir::Up => off <= pos && pos <= off + d,
        Dir::Down => off - d <= pos && pos <= off,
    }
}

fn object_beyond_reach(o: &BrObject, c: &BrCursor, dist: i64) -> (r: bool)
    ensures
        r == beyond_reach(o@, *c, dist),
{
    let pos: i128 = o.pos as i128;
    let off: i128 = c.offset as i128;
    let d: i128 = dist as i128;
    match c.dir {
        Dir::Up => off <= pos && pos > off + d,
        Dir::Down => pos <= off && pos < off - d,
    }
}

fn object_is_switch(o: &BrObject) -> (r: bool)
    ensures
        r == is_switch(o@),
{
    match &o.data {
        BrObjectData::Switch { .. } => true,
        _ => false,
    }
}

/// Finds the switch within reach that the walk meets first, and whether any
/// object lies beyond reach.
fn scan_objects(objs: &Vec<BrObject>, c: &BrCursor, dist: i64) -> (r: (Option<usize>, bool))
    ensures
        r.0 matches Some(i) ==> first_switch(objects_view(objs@), *c, dist, i as int),
        r.0 is None ==> !exists|i: int| first_switch(objects_view(objs@), *c, dist, i),
        r.1 == exists|j: int|
            0 <= j < objs@.len() && beyond_reach(#[trigger] objects_view(objs@)[j], *c, dist),
{
    let ghost ov = objects_view(objs@);
    let n: usize = objs.len();
    let mut best: Option<usize> = None;
    let mut beyond = false;
    let mut i: usize = 0;
    while i < n
        invariant
            n == objs@.len(),
            ov == objects_view(objs@),
            ov.len() == n,
            i <= n,
            best matches Some(k) ==> first_switch_among(ov, i as int, *c, dist, k as int),
            best is None ==> forall|j: int|
                0 <= j < i ==> !(is_switch(#[trigger] ov[j]) && in_reach(ov[j], *c, dist)),
            beyond == exists|j: int| 0 <= j < i && beyond_reach(#[trigger] ov[j], *c, dist),
        decreases n - i,
    {
        let o = &objs[i];
        assert(ov[i as int] == o@);
        if object_beyond_reach(o, c, dist) {
            beyond = true;
        }
        if object_is_switch(o) && object_in_reach(o, c, dist) {
            match best {
                None => {
                    best = Some(i);
                },
                Some(k) => {
                    let ok = &objs[k];
                    assert(ov[k as int] == ok@);
                    let better = match c.dir {
                        Dir::Up => o.pos < ok.pos,
                        Dir::Down => o.pos > ok.pos,
                    };
                    if better {
                        best = Some(i);
                    }
                },
            }
        }
        i = i + 1;
    }
    proof {
        if best is None {
            assert forall|k: int| !first_switch(ov, *c, dist, k) by {
                if 0 <= k < n {
                    assert(!(is_switch(ov[k]) && in_reach(ov[k], *c, dist)));
                }
            }
        }
    }
    (best, beyond)
}

fn fits(x: i128) -> (r: bool)
    ensures
        r == fits_i64(x as int),
{
    i64::MIN as i128 <= x && x <= i64::MAX as i128
}

fn abs128(x: i128) -> (r: i128)
    requires
        x > i128::MIN,
    ensures
        r == spec_abs(x as int),
{
    if x < 0 {
        -x
    } else {
        x
    }
}

/// Where the walk stops at switch `o` (see `switch_stop`).
fn stop_at_switch(m: &BranchingModel, c: &BrCursor, o: &BrObject, delta: i64) -> (r: WalkStep)
    ensures
        r == switch_stop(m@, *c, o@, delta),
{
    let d: i128 = abs128(o.pos as i128 - c.offset as i128);
    let before: i128 = o.pos as i128 - delta as i128;
    let after: i128 = o.pos as i128 + delta as i128;
    if !(fits(d) && fits(before) && fits(after)) {
        return WalkStep::Stuck;
    }
    let d: i64 = d as i64;
    let before: i64 = before as i64;
    let after: i64 = after as i64;
    match &o.data {
        BrObjectData::Switch { dir, conn, .. } => {
            if *dir == c.dir {
                match m.connections.get(conn) {
                    Some(branch) => match c.dir {
                        Dir::Up => WalkStep::Stop(
                            WalkResult::FacingSwitch(
                                d,
                                BrCursor { track: c.track, offset: before, dir: c.dir },
                                BrCursor { track: c.track, offset: after, dir: c.dir },
                                branch,
                            ),
                        ),
                        Dir::Down => WalkStep::Stop(
                            WalkResult::FacingSwitch(
                                d,
                                BrCursor { track: c.track, offset: after, dir: c.dir },
                                BrCursor { track: c.track, offset: before, dir: c.dir },
                                branch,
                            ),
                        ),
                    },
                    None => WalkStep::Stuck,
                }
            } else {
                WalkStep::Stop(
                    WalkResult::TrailingSwitch(
                        d,
                        BrCursor { track: c.track, offset: before, dir: c.dir },
                        BrCursor { track: c.track, offset: after, dir: c.dir },
                    ),
                )
            }
        },
        _ => WalkStep::Stuck,
    }
}

/// Where the walk goes at the end of track `t` (see `track_end_step`).
fn step_at_track_end(m: &BranchingModel, c: &BrCursor, t: &BrTrack, dist: i64, delta: i64) -> (r: WalkStep)
    ensures
        r == track_end_step(m@, *c, t@, dist, delta),
{
    let rem: i128 = match c.dir {
        Dir::Up => t.length as i128 - c.offset as i128,
        Dir::Down => c.offset as i128,
    };
    let target: i128 = match c.dir {
        Dir::Up => c.offset as i128 + dist as i128,
        Dir::Down => c.offset as i128 - dist as i128,
    };
    let end_offset: i128 = match c.dir {
        Dir::Up => t.length as i128 - delta as i128,
        Dir::Down => delta as i128,
    };
    let kind = match c.dir {
        Dir::Up => &t.end,
        Dir::Down => &t.begin,
    };
    let d: i128 = abs128(rem);
    if rem > dist as i128 {
        if fits(target) {
            return WalkStep::Stop(
                WalkResult::Arrived(BrCursor { track: c.track, offset: target as i64, dir: c.dir }),
            );
        } else {
            return WalkStep::Stuck;
        }
    }
    if !(fits(rem) && fits(d) && fits(end_offset)) {
        return WalkStep::Stuck;
    }
    let end = BrCursor { track: c.track, offset: end_offset as i64, dir: c.dir };
    match kind {
        BrTrackEnd::Connection(k) => match m.connections.get(k) {
            Some(next) => {
                if m.switch_conns.contains(k) {
                    WalkStep::Stop(WalkResult::TrailingSwitch(d as i64, end, next))
                } else if fits(dist as i128 - d) {
                    WalkStep::Hop(next, (dist as i128 - d) as i64)
                } else {
                    WalkStep::Stuck
                }
            },
            None => WalkStep::Stop(WalkResult::End(d as i64, end)),
        },
        _ => WalkStep::Stop(WalkResult::End(d as i64, end)),
    }
}

/// What happens on the track under cursor `c` when `dist` is left to walk
/// (see `walk_step_spec`).
fn walk_step(m: &BranchingModel, c: &BrCursor, dist: i64, delta: i64) -> (r: WalkStep)
    ensures
        r == walk_step_spec(m@, *c, dist, delta),
{
    if c.track >= m.tracks.len() {
        return WalkStep::Stuck;
    }
    let t = &m.tracks[c.track];
    assert(m@.tracks[c.track as int] == t@);
    let (best, beyond): (Option<usize>, bool) = scan_objects(&t.objs, c, dist);
    match best {
        Some(i) => {
            assert(t@.objs[i as int] == t.objs@[i as int]@);
            assert(forall|k: int| first_switch(t@.objs, *c, dist, k) ==> k == i);
            stop_at_switch(m, c, &t.objs[i], delta)
        },
        None => {
            if beyond {
                let target: i128 = match c.dir {
                    Dir::Up => c.offset as i128 + dist as i128,
                    Dir::Down => c.offset as i128 - dist as i128,
                };
                if fits(target) {
                    WalkStep::Stop(
                        WalkResult::Arrived(
                            BrCursor { track: c.track, offset: target as i64, dir: c.dir },
                        ),
                    )
                } else {
                    WalkStep::Stuck
                }
            } else {
                step_at_track_end(m, c, t, dist, delta)
            }
        },
    }
}

/// Walks `dist` from `cursor`, passing from track to track through at most
/// `max_hops` connections; says where the walk ends, or that it cannot go on,
/// or that it needs more hops.
pub fn walk_bounded(
    m: &BranchingModel,
    cursor: &BrCursor,
    dist: i64,
    delta: i64,
    max_hops: u64,
) -> (r: WalkOutcome)
    ensures
        r == walk_within(m@, *cursor, dist, delta, max_hops as nat),
{
    let mut c = *cursor;
    let mut d: i64 = dist;
    let mut hops: u64 = max_hops;
    loop
        invariant
            walk_within(m@, *cursor, dist, delta, max_hops as nat) == walk_within(
                m@,
                c,
                d,
                delta,
                hops as nat,
            ),
        decreases hops,
    {
        match walk_step(m, &c, d, delta) {
            WalkStep::Stop(r) => {
                return WalkOutcome::Done(r);
            },
            WalkStep::Stuck => {
                return WalkOutcome::Stuck;
            },
            WalkStep::Hop(next, left) => {
                if hops == 0 {
                    return WalkOutcome::OutOfHops;
                }
                c = next;
                d = left;
                hops = hops - 1;
            },
        }
    }
}

/// Walks `dist` (millimetres) from `cursor` along the model: past objects
/// that are not switches, from track to track through connections, until the
/// distance is walked, the model ends, or a switch is met. `delta` is the
/// margin by which the cursors it gives stand off the place where it stops.
pub fn walk(m: &BranchingModel, cursor: &BrCursor, dist: i64, delta: i64) -> (r: WalkResult)
    requires
        walk_ends(m@, *cursor, dist, delta),
    ensures
        r == spec_walk(m@, *cursor, dist, delta),
{
    let ghost fuel: nat = choose|hops: nat| #[trigger] walk_within(m@, *cursor, dist, delta, hops) is Done;
    let mut c = *cursor;
    let mut d: i64 = dist;
    let ghost mut h: nat = fuel;
    loop
        invariant
            walk_within(m@, c, d, delta, h) == walk_within(m@, *cursor, dist, delta, fuel),
            walk_within(m@, *cursor, dist, delta, fuel) is Done,
            spec_walk(m@, *cursor, dist, delta) == walk_within(m@, *cursor, dist, delta, fuel)->Done_0,
        decreases h,
    {
        match walk_step(m, &c, d, delta) {
            WalkStep::Stop(r) => {
                return r;
            },
            WalkStep::Stuck => {
                proof {
                    assert(false);
                }
                return WalkResult::End(0, c);
            },
            WalkStep::Hop(next, left) => {
                proof {
                    assert(h > 0);
                    h = (h - 1) as nat;
                }
                c = next;
                d = left;
            },
        }
    }
}

} // verus!
