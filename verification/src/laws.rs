use vstd::prelude::*;
use crate::branching::{
    Built,
    SwitchState, detector_elements, detector_step, detectors_from, empty_model, infrastructure_of,
    signal_elements, signal_sight, signal_step, signals_from, spec_branching_model, switch_elements, switch_step,
    switches_from, track_end_spec, track_header, track_step, tracks_from, ConnMapView,
    ConnSetView,
};
use crate::direction::{spec_opposite, Dir, Side};
use crate::length::{fits_i64, spec_parse_length, LengthError};
use crate::text::{debug_quoted, lowercase};
use crate::xml::{count_named, find_lower_in, first_named, spec_attr, spec_child};
use crate::model::BrCursor;
use crate::walk::{
    WalkOutcome, WalkResult, WalkStep, beyond_reach, cursor_at, first_switch, first_switch_among,
    in_reach, is_switch, met_before,
    spec_abs, spec_walk, track_end_step, walk_ends, walk_step_spec, walk_within,
};
use crate::model::{ModelView, ObjectDataView, ObjectView, TrackEndView, TrackView};
use crate::xml::Element;

verus! {

/// Every cursor of `conns` lies on a track numbered below `bound`.
pub open spec fn cursors_below(conns: ConnMapView, bound: int) -> bool {
    forall|k: (Seq<char>, Seq<char>)| conns.contains_key(k) ==> #[trigger] conns[k].track < bound
}

/// Each switch connection is there in both orders.
pub open spec fn symmetric(s: ConnSetView) -> bool {
    forall|a: Seq<char>, b: Seq<char>| #[trigger] s.contains((a, b)) ==> s.contains((b, a))
}

/// A model whose connections all lead onto its tracks and whose switch
/// connections are there in both orders.
pub open spec fn model_wf(m: ModelView) -> bool {
    &&& cursors_below(m.connections, m.tracks.len() as int)
    &&& symmetric(m.switch_conns)
}

proof fn lemma_track_end_keeps(
    n: Element,
    ns: Seq<char>,
    track: usize,
    offset: i64,
    dir: crate::direction::Dir,
    conns: ConnMapView,
)
    requires
        cursors_below(conns, track + 1),
        track_end_spec(n, ns, track, offset, dir, conns) is Done,
    ensures
        cursors_below(track_end_spec(n, ns, track, offset, dir, conns)->Done_0.1, track + 1),
{
}

proof fn lemma_switches_keep(els: Seq<Element>, track: usize, st: SwitchState)
    requires
        cursors_below(st.1, track + 1),
        symmetric(st.2),
        switches_from(els, track, st) is Done,
    ensures
        cursors_below(switches_from(els, track, st)->Done_0.1, track + 1),
        symmetric(switches_from(els, track, st)->Done_0.2),
    decreases els.len(),
{
    if els.len() > 0 {
        let next = switch_step(els[0], track, st);
        if next is Done {
            let n = next->Done_0;
            assert(cursors_below(n.1, track + 1));
            assert(symmetric(n.2));
            lemma_switches_keep(els.drop_first(), track, n);
        }
    }
}

proof fn lemma_track_step_keeps(t: Element, ns: Seq<char>, m: ModelView)
    requires
        model_wf(m),
        m.tracks.len() < usize::MAX,
        track_step(t, ns, m) is Done,
    ensures
        model_wf(track_step(t, ns, m)->Done_0),
        track_step(t, ns, m)->Done_0.tracks.len() <= m.tracks.len() + 1,
{
    if lowercase(t.name@) == "track"@ {
        let (name, length, tb, te): (Seq<char>, i64, Element, Element) = track_header(t, ns)->Done_0;
        let idx: usize = m.tracks.len() as usize;
        assert(cursors_below(m.connections, idx + 1));
        lemma_track_end_keeps(tb, ns, idx, 0, Dir::Up, m.connections);
        let c1 = track_end_spec(tb, ns, idx, 0, Dir::Up, m.connections)->Done_0.1;
        lemma_track_end_keeps(te, ns, idx, length, Dir::Down, c1);
        let c2 = track_end_spec(te, ns, idx, length, Dir::Down, c1)->Done_0.1;
        let o1 = signals_from(signal_elements(t, ns), Seq::empty())->Done_0;
        let o2 = detectors_from(detector_elements(t, ns), o1)->Done_0;
        lemma_switches_keep(switch_elements(t, ns), idx, (o2, c2, m.switch_conns));
    }
}

proof fn lemma_tracks_keep(els: Seq<Element>, ns: Seq<char>, m: ModelView)
    requires
        model_wf(m),
        m.tracks.len() + els.len() <= usize::MAX,
        tracks_from(els, ns, m) is Done,
    ensures
        model_wf(tracks_from(els, ns, m)->Done_0),
    decreases els.len(),
{
    if els.len() > 0 {
        lemma_track_step_keeps(els[0], ns, m);
        lemma_tracks_keep(els.drop_first(), ns, track_step(els[0], ns, m)->Done_0);
    }
}

/// Every connection of a model read from a document leads onto one of the
/// model's tracks, and every switch connection is there in both orders.
pub proof fn law_read_model_is_closed(doc: Element, ns: Seq<char>)
    requires
        spec_branching_model(doc, ns) is Done,
    ensures
        model_wf(spec_branching_model(doc, ns)->Done_0),
{
    let infra = infrastructure_of(doc).unwrap();
    let tracks = find_lower_in(infra.children@, "tracks"@).unwrap();
    assert(tracks.children.len() == tracks.children@.len());
    assert(model_wf(empty_model()));
    lemma_tracks_keep(tracks.children@, ns, empty_model());
}

/// Every cursor of a walk's result lies on a track numbered below `n`, and
/// every distance in it is not negative.
pub open spec fn result_within(r: WalkResult, n: int) -> bool {
    match r {
        WalkResult::Arrived(c) => c.track < n,
        WalkResult::End(d, c) => d >= 0 && c.track < n,
        WalkResult::TrailingSwitch(d, c1, c2) => d >= 0 && c1.track < n && c2.track < n,
        WalkResult::FacingSwitch(d, c1, c2, c3) => d >= 0 && c1.track < n && c2.track < n
            && c3.track < n,
    }
}

proof fn lemma_step_within(m: ModelView, c: BrCursor, dist: i64, delta: i64)
    requires
        model_wf(m),
    ensures
        (match walk_step_spec(m, c, dist, delta) {
            WalkStep::Stop(r) => result_within(r, m.tracks.len() as int),
            WalkStep::Hop(next, _) => next.track < m.tracks.len(),
            WalkStep::Stuck => true,
        }),
{
}

proof fn lemma_walk_within_stays(m: ModelView, c: BrCursor, dist: i64, delta: i64, hops: nat)
    requires
        model_wf(m),
    ensures
        walk_within(m, c, dist, delta, hops) matches WalkOutcome::Done(r) ==> result_within(
            r,
            m.tracks.len() as int,
        ),
    decreases hops,
{
    lemma_step_within(m, c, dist, delta);
    match walk_step_spec(m, c, dist, delta) {
        WalkStep::Hop(next, left) => {
            if hops > 0 {
                lemma_walk_within_stays(m, next, left, delta, (hops - 1) as nat);
            }
        },
        _ => {},
    }
}

/// A walk on a model whose connections lead onto its tracks never leaves the
/// model: every cursor that it gives lies on one of the model's tracks, and
/// every distance that it gives is not negative.
pub proof fn law_walk_stays_on_model(m: ModelView, c: BrCursor, dist: i64, delta: i64)
    requires
        model_wf(m),
        walk_ends(m, c, dist, delta),
    ensures
        result_within(spec_walk(m, c, dist, delta), m.tracks.len() as int),
{
    let hops = choose|hops: nat| #[trigger] walk_within(m, c, dist, delta, hops) is Done;
    lemma_walk_within_stays(m, c, dist, delta, hops);
}

/// Allowing a walk more hops does not change how it ends once it ends or
/// gets stuck.
pub proof fn law_more_hops_same_end(
    m: ModelView,
    c: BrCursor,
    dist: i64,
    delta: i64,
    hops: nat,
    more: nat,
)
    requires
        !(walk_within(m, c, dist, delta, hops) is OutOfHops),
        hops <= more,
    ensures
        walk_within(m, c, dist, delta, more) == walk_within(m, c, dist, delta, hops),
    decreases hops,
{
    match walk_step_spec(m, c, dist, delta) {
        WalkStep::Hop(next, left) => {
            law_more_hops_same_end(m, next, left, delta, (hops - 1) as nat, (more - 1) as nat);
        },
        _ => {},
    }
}

/// A walk bounded by any number of hops that ends, ends where the unbounded
/// walk ends.
pub proof fn law_bounded_walk_agrees(m: ModelView, c: BrCursor, dist: i64, delta: i64, hops: nat)
    requires
        walk_within(m, c, dist, delta, hops) is Done,
    ensures
        walk_ends(m, c, dist, delta),
        walk_within(m, c, dist, delta, hops) == WalkOutcome::Done(spec_walk(m, c, dist, delta)),
{
    let h = choose|h: nat| #[trigger] walk_within(m, c, dist, delta, h) is Done;
    if h <= hops {
        law_more_hops_same_end(m, c, dist, delta, h, hops);
    } else {
        law_more_hops_same_end(m, c, dist, delta, hops, h);
    }
}

// ---- tracks and switches of a read model ----

/// How many elements of `els` are called `track` (in any case).
pub open spec fn count_track_elements(els: Seq<Element>) -> nat
    decreases els.len(),
{
    if els.len() == 0 {
        0
    } else {
        (if lowercase(els[0].name@) == "track"@ { 1nat } else { 0nat }) + count_track_elements(
            els.drop_first(),
        )
    }
}

/// The `tracks` element of a document that has one.
pub open spec fn tracks_element(doc: Element) -> Element {
    find_lower_in(infrastructure_of(doc).unwrap().children@, "tracks"@).unwrap()
}

/// The branch of every switch among `objs` is in `s` in both orders.
pub open spec fn switches_recorded(objs: Seq<ObjectView>, s: ConnSetView) -> bool {
    forall|i: int|
        0 <= i < objs.len() ==> match #[trigger] objs[i].data {
            ObjectDataView::Switch { conn, .. } => s.contains(conn) && s.contains((conn.1, conn.0)),
            _ => true,
        }
}

/// The branch of every switch of the model is a switch connection, in both
/// orders.
pub open spec fn model_switches_recorded(m: ModelView) -> bool {
    forall|t: int| 0 <= t < m.tracks.len() ==> switches_recorded(#[trigger] m.tracks[t].objs, m.switch_conns)
}

proof fn lemma_recorded_push_other(objs: Seq<ObjectView>, o: ObjectView, s: ConnSetView)
    requires
        switches_recorded(objs, s),
        !(o.data is Switch),
    ensures
        switches_recorded(objs.push(o), s),
{
    assert forall|i: int| 0 <= i < objs.push(o).len() implies match #[trigger] objs.push(o)[i].data {
        ObjectDataView::Switch { conn, .. } => s.contains(conn) && s.contains((conn.1, conn.0)),
        _ => true,
    } by {
        if i < objs.len() {
            assert(objs.push(o)[i] == objs[i]);
        }
    }
}

proof fn lemma_signals_record(els: Seq<Element>, objs: Seq<ObjectView>, s: ConnSetView)
    requires
        switches_recorded(objs, s),
        signals_from(els, objs) is Done,
    ensures
        switches_recorded(signals_from(els, objs)->Done_0, s),
    decreases els.len(),
{
    if els.len() > 0 {
        let next = crate::branching::signal_step(els[0], objs)->Done_0;
        if next != objs {
            lemma_recorded_push_other(objs, next.last(), s);
            assert(next =~= objs.push(next.last()));
        }
        lemma_signals_record(els.drop_first(), next, s);
    }
}

proof fn lemma_detectors_record(els: Seq<Element>, objs: Seq<ObjectView>, s: ConnSetView)
    requires
        switches_recorded(objs, s),
        detectors_from(els, objs) is Done,
    ensures
        switches_recorded(detectors_from(els, objs)->Done_0, s),
    decreases els.len(),
{
    if els.len() > 0 {
        let next = crate::branching::detector_step(els[0], objs)->Done_0;
        if next != objs {
            lemma_recorded_push_other(objs, next.last(), s);
            assert(next =~= objs.push(next.last()));
        }
        lemma_detectors_record(els.drop_first(), next, s);
    }
}

proof fn lemma_switches_record(els: Seq<Element>, track: usize, st: SwitchState)
    requires
        switches_recorded(st.0, st.2),
        switches_from(els, track, st) is Done,
    ensures
        switches_recorded(switches_from(els, track, st)->Done_0.0, switches_from(els, track, st)->Done_0.2),
        st.2.subset_of(switches_from(els, track, st)->Done_0.2),
    decreases els.len(),
{
    if els.len() > 0 {
        let next = switch_step(els[0], track, st)->Done_0;
        assert(st.2.subset_of(next.2));
        assert(switches_recorded(next.0, next.2)) by {
            assert forall|i: int| 0 <= i < next.0.len() implies match #[trigger] next.0[i].data {
                ObjectDataView::Switch { conn, .. } => next.2.contains(conn) && next.2.contains(
                    (conn.1, conn.0),
                ),
                _ => true,
            } by {
                if i < st.0.len() {
                    assert(next.0[i] == st.0[i]);
                }
            }
        }
        lemma_switches_record(els.drop_first(), track, next);
    }
}

proof fn lemma_recorded_grow(objs: Seq<ObjectView>, s: ConnSetView, bigger: ConnSetView)
    requires
        switches_recorded(objs, s),
        s.subset_of(bigger),
    ensures
        switches_recorded(objs, bigger),
{
    assert forall|i: int| 0 <= i < objs.len() implies match #[trigger] objs[i].data {
        ObjectDataView::Switch { conn, .. } => bigger.contains(conn) && bigger.contains((conn.1, conn.0)),
        _ => true,
    } by {
        match objs[i].data {
            ObjectDataView::Switch { conn, .. } => {
                assert(s.contains(conn) && s.contains((conn.1, conn.0)));
            },
            _ => {},
        }
    }
}

proof fn lemma_track_step_records(t: Element, ns: Seq<char>, m: ModelView)
    requires
        model_switches_recorded(m),
        track_step(t, ns, m) is Done,
    ensures
        model_switches_recorded(track_step(t, ns, m)->Done_0),
        track_step(t, ns, m)->Done_0.tracks.len() == m.tracks.len() + (if lowercase(t.name@)
            == "track"@ {
            1int
        } else {
            0int
        }),
{
    if lowercase(t.name@) == "track"@ {
        let (name, length, tb, te): (Seq<char>, i64, Element, Element) = track_header(t, ns)->Done_0;
        let idx: usize = m.tracks.len() as usize;
        let c1 = track_end_spec(tb, ns, idx, 0, Dir::Up, m.connections)->Done_0.1;
        let c2 = track_end_spec(te, ns, idx, length, Dir::Down, c1)->Done_0.1;
        let empty = Seq::<ObjectView>::empty();
        assert(switches_recorded(empty, m.switch_conns));
        lemma_signals_record(signal_elements(t, ns), empty, m.switch_conns);
        let o1 = signals_from(signal_elements(t, ns), empty)->Done_0;
        lemma_detectors_record(detector_elements(t, ns), o1, m.switch_conns);
        let o2 = detectors_from(detector_elements(t, ns), o1)->Done_0;
        lemma_switches_record(switch_elements(t, ns), idx, (o2, c2, m.switch_conns));
        let r = track_step(t, ns, m)->Done_0;
        assert forall|k: int| 0 <= k < r.tracks.len() implies switches_recorded(
            #[trigger] r.tracks[k].objs,
            r.switch_conns,
        ) by {
            if k < m.tracks.len() {
                assert(r.tracks[k] == m.tracks[k]);
                lemma_recorded_grow(m.tracks[k].objs, m.switch_conns, r.switch_conns);
            }
        }
    }
}

proof fn lemma_tracks_record(els: Seq<Element>, ns: Seq<char>, m: ModelView)
    requires
        model_switches_recorded(m),
        tracks_from(els, ns, m) is Done,
    ensures
        model_switches_recorded(tracks_from(els, ns, m)->Done_0),
        tracks_from(els, ns, m)->Done_0.tracks.len() == m.tracks.len() + count_track_elements(els),
    decreases els.len(),
{
    if els.len() > 0 {
        lemma_track_step_records(els[0], ns, m);
        lemma_tracks_record(els.drop_first(), ns, track_step(els[0], ns, m)->Done_0);
    }
}

/// A model read from a document has one track for each element called
/// `track` under its `tracks` element, and the branch of every switch on
/// every track is a switch connection in both orders.
pub proof fn law_read_model_tracks_and_switches(doc: Element, ns: Seq<char>)
    requires
        spec_branching_model(doc, ns) is Done,
    ensures
        spec_branching_model(doc, ns)->Done_0.tracks.len() == count_track_elements(
            tracks_element(doc).children@,
        ),
        model_switches_recorded(spec_branching_model(doc, ns)->Done_0),
{
    lemma_tracks_record(tracks_element(doc).children@, ns, empty_model());
}

// ---- walking through connections ----

/// Whether `c` enters a track of `m` that is at least a millimetre long, at
/// its begin facing up or at its end facing down.
pub open spec fn entry_cursor(m: ModelView, c: BrCursor) -> bool {
    &&& c.track < m.tracks.len()
    &&& m.tracks[c.track as int].length >= 1
    &&& ((c.dir == Dir::Up && c.offset == 0) || (c.dir == Dir::Down && c.offset
        == m.tracks[c.track as int].length))
}

/// Whether every connection that is not a switch connection enters a track
/// (see `entry_cursor`).
pub open spec fn plain_connections_enter(m: ModelView) -> bool {
    forall|k: (Seq<char>, Seq<char>)|
        #[trigger] m.connections.contains_key(k) && !m.switch_conns.contains(k) ==> entry_cursor(
            m,
            m.connections[k],
        )
}

proof fn lemma_entry_hops(m: ModelView, c: BrCursor, dist: i64, delta: i64, hops: nat)
    requires
        plain_connections_enter(m),
        entry_cursor(m, c),
        hops > dist,
    ensures
        !(walk_within(m, c, dist, delta, hops) is OutOfHops),
    decreases hops,
{
    match walk_step_spec(m, c, dist, delta) {
        WalkStep::Hop(next, left) => {
            let t = m.tracks[c.track as int];
            let kind = match c.dir {
                Dir::Up => t.end,
                Dir::Down => t.begin,
            };
            assert(kind is Connection);
            assert(left <= dist - 1);
            lemma_entry_hops(m, next, left, delta, (hops - 1) as nat);
        },
        _ => {},
    }
}

/// A walk of a distance that is not negative, on a model whose plain
/// connections each enter a track of at least a millimetre at its begin
/// facing up or at its end facing down, passes through at most `dist + 1`
/// connections: allowed `dist + 2` hops it never runs out of them, so it
/// ends exactly when it ends within that many hops.
pub proof fn law_walk_terminates(m: ModelView, c: BrCursor, dist: i64, delta: i64)
    requires
        plain_connections_enter(m),
        0 <= dist,
    ensures
        !(walk_within(m, c, dist, delta, (dist + 2) as nat) is OutOfHops),
        walk_ends(m, c, dist, delta) == (walk_within(m, c, dist, delta, (dist + 2) as nat) is Done),
{
    let h = (dist + 2) as nat;
    match walk_step_spec(m, c, dist, delta) {
        WalkStep::Hop(next, left) => {
            let t = m.tracks[c.track as int];
            let kind = match c.dir {
                Dir::Up => t.end,
                Dir::Down => t.begin,
            };
            assert(kind is Connection);
            lemma_entry_hops(m, next, left, delta, (h - 1) as nat);
        },
        _ => {},
    }
    if walk_ends(m, c, dist, delta) {
        let k = choose|k: nat| #[trigger] walk_within(m, c, dist, delta, k) is Done;
        if k <= h {
            law_more_hops_same_end(m, c, dist, delta, k, h);
        } else {
            law_more_hops_same_end(m, c, dist, delta, h, k);
        }
    }
}

/// Reaching the end (or, walking down, the begin) of a track through a
/// plain connection, the walk goes on as the walk of what is left from the
/// cursor that the connection leads to.
pub proof fn law_walk_continues_through_connection(m: ModelView, c: BrCursor, dist: i64, delta: i64)
    requires
        walk_step_spec(m, c, dist, delta) is Hop,
    ensures
        ({
            let next = walk_step_spec(m, c, dist, delta)->Hop_0;
            let left = walk_step_spec(m, c, dist, delta)->Hop_1;
            &&& walk_ends(m, c, dist, delta) == walk_ends(m, next, left, delta)
            &&& walk_ends(m, c, dist, delta) ==> spec_walk(m, c, dist, delta) == spec_walk(
                m,
                next,
                left,
                delta,
            )
        }),
{
    let next = walk_step_spec(m, c, dist, delta)->Hop_0;
    let left = walk_step_spec(m, c, dist, delta)->Hop_1;
    if walk_ends(m, c, dist, delta) {
        let k = choose|k: nat| #[trigger] walk_within(m, c, dist, delta, k) is Done;
        assert(k > 0);
        assert(walk_within(m, next, left, delta, (k - 1) as nat) is Done);
        law_bounded_walk_agrees(m, next, left, delta, (k - 1) as nat);
    }
    if walk_ends(m, next, left, delta) {
        let k = choose|k: nat| #[trigger] walk_within(m, next, left, delta, k) is Done;
        assert(walk_within(m, c, dist, delta, k + 1) == walk_within(m, next, left, delta, k));
        assert(walk_within(m, c, dist, delta, k + 1) is Done);
    }
}

// ---- every connection's reverse key is mapped ----

/// Every key of `a` is a key of `b`.
pub open spec fn keys_grow(a: ConnMapView, b: ConnMapView) -> bool {
    forall|k: (Seq<char>, Seq<char>)| a.contains_key(k) ==> #[trigger] b.contains_key(k)
}

/// A track end through a connection `(id, ref)` has `(ref, id)` mapped.
pub open spec fn end_closed(e: TrackEndView, c: ConnMapView) -> bool {
    match e {
        TrackEndView::Connection(k) => c.contains_key((k.1, k.0)),
        _ => true,
    }
}

/// Every switch among `objs`, with branch `(id, ref)`, has `(ref, id)`
/// mapped.
pub open spec fn objs_closed(objs: Seq<ObjectView>, c: ConnMapView) -> bool {
    forall|i: int|
        0 <= i < objs.len() ==> match #[trigger] objs[i].data {
            ObjectDataView::Switch { conn, .. } => c.contains_key((conn.1, conn.0)),
            _ => true,
        }
}

/// Every track end through a connection `(id, ref)`, and every switch with
/// branch `(id, ref)`, has the key `(ref, id)` in the model's connections.
pub open spec fn model_keys_closed(m: ModelView) -> bool {
    forall|t: int|
        0 <= t < m.tracks.len() ==> {
            &&& end_closed(#[trigger] m.tracks[t].begin, m.connections)
            &&& end_closed(m.tracks[t].end, m.connections)
            &&& objs_closed(m.tracks[t].objs, m.connections)
        }
}

proof fn lemma_objs_closed_grow(objs: Seq<ObjectView>, a: ConnMapView, b: ConnMapView)
    requires
        objs_closed(objs, a),
        keys_grow(a, b),
    ensures
        objs_closed(objs, b),
{
    assert forall|i: int| 0 <= i < objs.len() implies match #[trigger] objs[i].data {
        ObjectDataView::Switch { conn, .. } => b.contains_key((conn.1, conn.0)),
        _ => true,
    } by {
        match objs[i].data {
            ObjectDataView::Switch { conn, .. } => {
                assert(a.contains_key((conn.1, conn.0)));
            },
            _ => {},
        }
    }
}

proof fn lemma_objs_closed_push_other(objs: Seq<ObjectView>, o: ObjectView, c: ConnMapView)
    requires
        objs_closed(objs, c),
        !(o.data is Switch),
    ensures
        objs_closed(objs.push(o), c),
{
    assert forall|i: int| 0 <= i < objs.push(o).len() implies match #[trigger] objs.push(o)[i].data {
        ObjectDataView::Switch { conn, .. } => c.contains_key((conn.1, conn.0)),
        _ => true,
    } by {
        if i < objs.len() {
            assert(objs.push(o)[i] == objs[i]);
        }
    }
}

proof fn lemma_signals_closed(els: Seq<Element>, objs: Seq<ObjectView>, c: ConnMapView)
    requires
        objs_closed(objs, c),
        signals_from(els, objs) is Done,
    ensures
        objs_closed(signals_from(els, objs)->Done_0, c),
    decreases els.len(),
{
    if els.len() > 0 {
        let next = crate::branching::signal_step(els[0], objs)->Done_0;
        if next != objs {
            lemma_objs_closed_push_other(objs, next.last(), c);
            assert(next =~= objs.push(next.last()));
        }
        lemma_signals_closed(els.drop_first(), next, c);
    }
}

proof fn lemma_detectors_closed(els: Seq<Element>, objs: Seq<ObjectView>, c: ConnMapView)
    requires
        objs_closed(objs, c),
        detectors_from(els, objs) is Done,
    ensures
        objs_closed(detectors_from(els, objs)->Done_0, c),
    decreases els.len(),
{
    if els.len() > 0 {
        let next = crate::branching::detector_step(els[0], objs)->Done_0;
        if next != objs {
            lemma_objs_closed_push_other(objs, next.last(), c);
            assert(next =~= objs.push(next.last()));
        }
        lemma_detectors_closed(els.drop_first(), next, c);
    }
}

proof fn lemma_switches_closed(els: Seq<Element>, track: usize, st: SwitchState)
    requires
        objs_closed(st.0, st.1),
        switches_from(els, track, st) is Done,
    ensures
        objs_closed(switches_from(els, track, st)->Done_0.0, switches_from(els, track, st)->Done_0.1),
        keys_grow(st.1, switches_from(els, track, st)->Done_0.1),
    decreases els.len(),
{
    if els.len() > 0 {
        let next = switch_step(els[0], track, st)->Done_0;
        assert(keys_grow(st.1, next.1));
        lemma_objs_closed_grow(st.0, st.1, next.1);
        assert(objs_closed(next.0, next.1)) by {
            assert forall|i: int| 0 <= i < next.0.len() implies match #[trigger] next.0[i].data {
                ObjectDataView::Switch { conn, .. } => next.1.contains_key((conn.1, conn.0)),
                _ => true,
            } by {
                if i < st.0.len() {
                    assert(next.0[i] == st.0[i]);
                }
            }
        }
        lemma_switches_closed(els.drop_first(), track, next);
    }
}

proof fn lemma_track_step_closed(t: Element, ns: Seq<char>, m: ModelView)
    requires
        model_keys_closed(m),
        track_step(t, ns, m) is Done,
    ensures
        model_keys_closed(track_step(t, ns, m)->Done_0),
{
    if lowercase(t.name@) == "track"@ {
        let (name, length, tb, te): (Seq<char>, i64, Element, Element) = track_header(t, ns)->Done_0;
        let idx: usize = m.tracks.len() as usize;
        let b = track_end_spec(tb, ns, idx, 0, Dir::Up, m.connections)->Done_0;
        let e = track_end_spec(te, ns, idx, length, Dir::Down, b.1)->Done_0;
        let empty = Seq::<ObjectView>::empty();
        assert(objs_closed(empty, e.1));
        lemma_signals_closed(signal_elements(t, ns), empty, e.1);
        let o1 = signals_from(signal_elements(t, ns), empty)->Done_0;
        lemma_detectors_closed(detector_elements(t, ns), o1, e.1);
        let o2 = detectors_from(detector_elements(t, ns), o1)->Done_0;
        lemma_switches_closed(switch_elements(t, ns), idx, (o2, e.1, m.switch_conns));
        let r = track_step(t, ns, m)->Done_0;
        assert(keys_grow(m.connections, r.connections));
        assert forall|k: int| 0 <= k < r.tracks.len() implies {
            &&& end_closed(#[trigger] r.tracks[k].begin, r.connections)
            &&& end_closed(r.tracks[k].end, r.connections)
            &&& objs_closed(r.tracks[k].objs, r.connections)
        } by {
            if k < m.tracks.len() {
                assert(r.tracks[k] == m.tracks[k]);
                lemma_objs_closed_grow(m.tracks[k].objs, m.connections, r.connections);
            }
        }
    }
}

proof fn lemma_tracks_closed(els: Seq<Element>, ns: Seq<char>, m: ModelView)
    requires
        model_keys_closed(m),
        tracks_from(els, ns, m) is Done,
    ensures
        model_keys_closed(tracks_from(els, ns, m)->Done_0),
    decreases els.len(),
{
    if els.len() > 0 {
        lemma_track_step_closed(els[0], ns, m);
        lemma_tracks_closed(els.drop_first(), ns, track_step(els[0], ns, m)->Done_0);
    }
}

/// In a model read from a document, every track end through a connection
/// `(id, ref)` and every switch with branch `(id, ref)` has its reverse key
/// `(ref, id)` among the connections.
pub proof fn law_read_model_reverse_keys(doc: Element, ns: Seq<char>)
    requires
        spec_branching_model(doc, ns) is Done,
    ensures
        model_keys_closed(spec_branching_model(doc, ns)->Done_0),
{
    lemma_tracks_closed(tracks_element(doc).children@, ns, empty_model());
}

// ---- reaching the end of a track ----

/// A walk whose step ends with `r` ends there.
proof fn lemma_stop_is_end(m: ModelView, c: BrCursor, dist: i64, delta: i64, r: WalkResult)
    requires
        walk_step_spec(m, c, dist, delta) == WalkStep::Stop(r),
    ensures
        walk_ends(m, c, dist, delta),
        spec_walk(m, c, dist, delta) == r,
{
    assert(walk_within(m, c, dist, delta, 0) == WalkOutcome::Done(r));
    law_bounded_walk_agrees(m, c, dist, delta, 0);
}

/// Where no switch lies within reach and nothing lies beyond it, and the
/// rest of the track (up to its end, or down to its begin) is no longer
/// than the distance: the walk stops at the end of the model there (`End`)
/// unless the track goes on through a connection; through a switch
/// connection it stops at that trailing switch; through any other
/// connection it goes on as the walk of the distance left from where that
/// connection leads. The values met must fit in 64 bits.
pub proof fn law_walk_at_track_end(m: ModelView, c: BrCursor, dist: i64, delta: i64)
    requires
        c.track < m.tracks.len(),
        forall|i: int|
            0 <= i < m.tracks[c.track as int].objs.len() && is_switch(
                #[trigger] m.tracks[c.track as int].objs[i],
            ) ==> !in_reach(m.tracks[c.track as int].objs[i], c, dist),
        forall|i: int|
            0 <= i < m.tracks[c.track as int].objs.len() ==> !beyond_reach(
                #[trigger] m.tracks[c.track as int].objs[i],
                c,
                dist,
            ),
        (match c.dir {
            Dir::Up => m.tracks[c.track as int].length - c.offset,
            Dir::Down => c.offset as int,
        }) <= dist,
        fits_i64(
            match c.dir {
                Dir::Up => m.tracks[c.track as int].length - c.offset,
                Dir::Down => c.offset as int,
            },
        ),
        fits_i64(
            spec_abs(
                match c.dir {
                    Dir::Up => m.tracks[c.track as int].length - c.offset,
                    Dir::Down => c.offset as int,
                },
            ),
        ),
        fits_i64(
            match c.dir {
                Dir::Up => m.tracks[c.track as int].length - delta,
                Dir::Down => delta as int,
            },
        ),
    ensures
        ({
            let t = m.tracks[c.track as int];
            let rem: int = match c.dir {
                Dir::Up => t.length - c.offset,
                Dir::Down => c.offset as int,
            };
            let d = spec_abs(rem);
            let e = cursor_at(
                c.track,
                match c.dir {
                    Dir::Up => t.length - delta,
                    Dir::Down => delta as int,
                },
                c.dir,
            );
            let kind = match c.dir {
                Dir::Up => t.end,
                Dir::Down => t.begin,
            };
            match kind {
                TrackEndView::Connection(k) => if m.connections.contains_key(k) {
                    if m.switch_conns.contains(k) {
                        walk_ends(m, c, dist, delta) && spec_walk(m, c, dist, delta)
                            == WalkResult::TrailingSwitch(d as i64, e, m.connections[k])
                    } else {
                        fits_i64(dist - d) ==> {
                            &&& walk_ends(m, c, dist, delta) == walk_ends(
                                m,
                                m.connections[k],
                                (dist - d) as i64,
                                delta,
                            )
                            &&& walk_ends(m, c, dist, delta) ==> spec_walk(m, c, dist, delta)
                                == spec_walk(m, m.connections[k], (dist - d) as i64, delta)
                        }
                    }
                } else {
                    walk_ends(m, c, dist, delta) && spec_walk(m, c, dist, delta) == WalkResult::End(
                        d as i64,
                        e,
                    )
                },
                _ => walk_ends(m, c, dist, delta) && spec_walk(m, c, dist, delta) == WalkResult::End(
                    d as i64,
                    e,
                ),
            }
        }),
{
    let t = m.tracks[c.track as int];
    assert(!exists|i: int| first_switch(t.objs, c, dist, i));
    assert(!exists|j: int| 0 <= j < t.objs.len() && beyond_reach(#[trigger] t.objs[j], c, dist));
    assert(walk_step_spec(m, c, dist, delta) == track_end_step(m, c, t, dist, delta));
    match walk_step_spec(m, c, dist, delta) {
        WalkStep::Stop(r) => {
            lemma_stop_is_end(m, c, dist, delta, r);
        },
        WalkStep::Hop(next, left) => {
            law_walk_continues_through_connection(m, c, dist, delta);
        },
        WalkStep::Stuck => {},
    }
}

// ---- switch connections ----

/// Whether `k` is the branch of switch `o`, in either order.
pub open spec fn is_branch_pair(o: ObjectView, k: (Seq<char>, Seq<char>)) -> bool {
    match o.data {
        ObjectDataView::Switch { conn, .. } => k == conn || k == (conn.1, conn.0),
        _ => false,
    }
}

/// The branches of the switches among `objs`, in both orders.
pub open spec fn branch_pairs(objs: Seq<ObjectView>) -> ConnSetView {
    Set::new(
        |k: (Seq<char>, Seq<char>)|
            exists|i: int| 0 <= i < objs.len() && #[trigger] is_branch_pair(objs[i], k),
    )
}

/// Reading the switches of a track keeps the objects read before and adds
/// to the switch connections exactly the branches of the switches read, in
/// both orders; so switch connections that came in both orders still do.
pub proof fn law_switches_add_both_orders(els: Seq<Element>, track: usize, st: SwitchState)
    requires
        switches_from(els, track, st) is Done,
    ensures
        ({
            let r = switches_from(els, track, st)->Done_0;
            &&& st.0.len() <= r.0.len()
            &&& r.0.take(st.0.len() as int) == st.0
            &&& r.2 == st.2.union(branch_pairs(r.0.skip(st.0.len() as int)))
            &&& symmetric(st.2) ==> symmetric(r.2)
        }),
    decreases els.len(),
{
    let r = switches_from(els, track, st)->Done_0;
    if els.len() == 0 {
        assert(r.0.take(st.0.len() as int) =~= st.0);
        assert(branch_pairs(r.0.skip(st.0.len() as int)) =~= Set::empty());
        assert(r.2 =~= st.2.union(Set::empty()));
    } else {
        let next = switch_step(els[0], track, st)->Done_0;
        law_switches_add_both_orders(els.drop_first(), track, next);
        assert(r == switches_from(els.drop_first(), track, next)->Done_0);
        let n0 = st.0.len() as int;
        if next.0.len() == st.0.len() {
            assert(next == st);
        } else {
            let o = next.0.last();
            assert(next.0 == st.0.push(o));
            let conn = o.data->Switch_conn;
            assert(o.data is Switch);
            assert(next.2 == st.2.insert(conn).insert((conn.1, conn.0)));
            assert(r.0.take(n0) =~= st.0) by {
                assert forall|i: int| 0 <= i < n0 implies r.0.take(n0)[i] == st.0[i] by {
                    assert(r.0.take(n0 + 1)[i] == next.0[i]);
                }
            }
            assert(r.0[n0] == o) by {
                assert(r.0.take(n0 + 1)[n0] == next.0[n0]);
            }
            let tail = r.0.skip(n0);
            let tail1 = r.0.skip(n0 + 1);
            assert forall|k: (Seq<char>, Seq<char>)| #[trigger] r.2.contains(k) == st.2.union(
                branch_pairs(tail),
            ).contains(k) by {
                if branch_pairs(tail1).contains(k) {
                    let i = choose|i: int| 0 <= i < tail1.len() && #[trigger] is_branch_pair(tail1[i], k);
                    assert(tail[i + 1] == tail1[i]);
                    assert(is_branch_pair(tail[i + 1], k));
                }
                if branch_pairs(tail).contains(k) {
                    let i = choose|i: int| 0 <= i < tail.len() && #[trigger] is_branch_pair(tail[i], k);
                    if i == 0 {
                        assert(tail[0] == o);
                    } else {
                        assert(tail1[i - 1] == tail[i]);
                        assert(is_branch_pair(tail1[i - 1], k));
                    }
                }
                if k == conn || k == (conn.1, conn.0) {
                    assert(tail[0] == o);
                    assert(is_branch_pair(tail[0], k));
                }
            }
            assert(r.2 =~= st.2.union(branch_pairs(tail)));
        }
    }
}

// ---- what one track's walk gives ----

/// Whether position `p` lies between the cursor and `dist` ahead of it.
pub open spec fn ahead_within(c: BrCursor, dist: i64, p: i64) -> bool {
    match c.dir {
        Dir::Up => c.offset <= p && p <= c.offset + dist,
        Dir::Down => c.offset - dist <= p && p <= c.offset,
    }
}

/// Whether no switch of track `t` lies between the cursor and `dist` ahead.
pub open spec fn no_switch_ahead(t: TrackView, c: BrCursor, dist: i64) -> bool {
    forall|j: int|
        #![trigger t.objs[j]]
        0 <= j < t.objs.len() && t.objs[j].data is Switch ==> !ahead_within(c, dist, t.objs[j].pos)
}

proof fn lemma_no_first_switch(t: TrackView, c: BrCursor, dist: i64)
    requires
        !exists|i: int| first_switch(t.objs, c, dist, i),
    ensures
        no_switch_ahead(t, c, dist),
{
    assert forall|j: int| 0 <= j < t.objs.len() && #[trigger] t.objs[j].data is Switch implies !ahead_within(
        c,
        dist,
        t.objs[j].pos,
    ) by {
        if ahead_within(c, dist, t.objs[j].pos) {
            lemma_some_first_switch(t.objs, c, dist, j);
        }
    }
}

/// A walk that arrives without passing through any connection arrives on
/// the track it started on, facing the same way, moved by the whole
/// distance in its direction: `offset + dist` walking up, `offset - dist`
/// walking down; and no switch of that track lies on the way.
pub proof fn law_arrival_moves_by_distance(m: ModelView, c: BrCursor, dist: i64, delta: i64, a: BrCursor)
    requires
        walk_within(m, c, dist, delta, 0) == WalkOutcome::Done(WalkResult::Arrived(a)),
    ensures
        a.track == c.track,
        a.dir == c.dir,
        a.offset == (match c.dir {
            Dir::Up => c.offset + dist,
            Dir::Down => c.offset - dist,
        }),
        c.track < m.tracks.len(),
        no_switch_ahead(m.tracks[c.track as int], c, dist),
{
    let t = m.tracks[c.track as int];
    if exists|i: int| first_switch(t.objs, c, dist, i) {
        let i = choose|i: int| first_switch(t.objs, c, dist, i);
        assert(is_switch(t.objs[i]));
    }
    lemma_no_first_switch(t, c, dist);
}

/// Where a walk reaches the end of its track (its begin, walking down) with
/// distance left and no switch on the way, and the track goes on through a
/// plain connection, the walk goes on from the cursor that the connection
/// leads to, with the distance less what it took to reach the end.
pub proof fn law_hop_through_connection(
    m: ModelView,
    c: BrCursor,
    dist: i64,
    delta: i64,
    next: BrCursor,
    left: i64,
)
    requires
        walk_step_spec(m, c, dist, delta) == WalkStep::Hop(next, left),
    ensures
        c.track < m.tracks.len(),
        ({
            let t = m.tracks[c.track as int];
            let rem: int = match c.dir {
                Dir::Up => t.length - c.offset,
                Dir::Down => c.offset as int,
            };
            let kind = match c.dir {
                Dir::Up => t.end,
                Dir::Down => t.begin,
            };
            &&& no_switch_ahead(t, c, dist)
            &&& forall|j: int| 0 <= j < t.objs.len() ==> !beyond_reach(#[trigger] t.objs[j], c, dist)
            &&& rem <= dist
            &&& kind matches TrackEndView::Connection(k)
            &&& m.connections.contains_key(k)
            &&& !m.switch_conns.contains(k)
            &&& next == m.connections[k]
            &&& left == dist - spec_abs(rem)
        }),
{
    let t = m.tracks[c.track as int];
    if exists|i: int| first_switch(t.objs, c, dist, i) {
        let i = choose|i: int| first_switch(t.objs, c, dist, i);
        assert(is_switch(t.objs[i]));
    }
    lemma_no_first_switch(t, c, dist);
}

/// A walk that reaches the end of the model without passing through any
/// connection met no switch on the way and nothing beyond; it reached the
/// end of its track (its begin, walking down) within the distance, where
/// the track ends other than in a connection that leads on; it reports the
/// distance to that end and the cursor `delta` short of it.
pub proof fn law_end_stop(m: ModelView, c: BrCursor, dist: i64, delta: i64, d: i64, e: BrCursor)
    requires
        walk_within(m, c, dist, delta, 0) == WalkOutcome::Done(WalkResult::End(d, e)),
    ensures
        c.track < m.tracks.len(),
        ({
            let t = m.tracks[c.track as int];
            let rem: int = match c.dir {
                Dir::Up => t.length - c.offset,
                Dir::Down => c.offset as int,
            };
            let kind = match c.dir {
                Dir::Up => t.end,
                Dir::Down => t.begin,
            };
            &&& no_switch_ahead(t, c, dist)
            &&& forall|j: int| 0 <= j < t.objs.len() ==> !beyond_reach(#[trigger] t.objs[j], c, dist)
            &&& rem <= dist
            &&& !(kind matches TrackEndView::Connection(k) && m.connections.contains_key(k))
            &&& d == spec_abs(rem)
            &&& e.track == c.track
            &&& e.dir == c.dir
            &&& e.offset == (match c.dir {
                Dir::Up => t.length - delta,
                Dir::Down => delta as int,
            })
        }),
{
    let t = m.tracks[c.track as int];
    if exists|i: int| first_switch(t.objs, c, dist, i) {
        let i = choose|i: int| first_switch(t.objs, c, dist, i);
        assert(is_switch(t.objs[i]));
    }
    lemma_no_first_switch(t, c, dist);
}

/// A walk that stops at a facing switch without passing through any
/// connection stops at a switch of its track that faces its way, lies
/// within the distance ahead, and is the nearest such switch within reach;
/// it reports the distance from the cursor to the switch, the cursors
/// `delta` before and after the switch on its track, and where the
/// switch's branch leads.
pub proof fn law_facing_switch_stop(
    m: ModelView,
    c: BrCursor,
    dist: i64,
    delta: i64,
    d: i64,
    c1: BrCursor,
    c2: BrCursor,
    c3: BrCursor,
)
    requires
        walk_within(m, c, dist, delta, 0) == WalkOutcome::Done(
            WalkResult::FacingSwitch(d, c1, c2, c3),
        ),
    ensures
        c.track < m.tracks.len(),
        exists|i: int|
            #![trigger m.tracks[c.track as int].objs[i]]
            0 <= i < m.tracks[c.track as int].objs.len() && ({
                let o = m.tracks[c.track as int].objs[i];
                &&& o.data matches ObjectDataView::Switch { dir, conn, .. }
                &&& dir == c.dir
                &&& m.connections.contains_key(conn)
                &&& c3 == m.connections[conn]
                &&& ahead_within(c, dist, o.pos)
                &&& d == spec_abs(o.pos - c.offset)
                &&& c1.track == c.track && c2.track == c.track
                &&& c1.dir == c.dir && c2.dir == c.dir
                &&& c1.offset == (match c.dir {
                    Dir::Up => o.pos - delta,
                    Dir::Down => o.pos + delta,
                })
                &&& c2.offset == (match c.dir {
                    Dir::Up => o.pos + delta,
                    Dir::Down => o.pos - delta,
                })
                &&& forall|j: int|
                    #![trigger m.tracks[c.track as int].objs[j]]
                    0 <= j < m.tracks[c.track as int].objs.len() && m.tracks[c.track as int].objs[j].data is Switch
                        && ahead_within(c, dist, m.tracks[c.track as int].objs[j].pos) ==> (match c.dir {
                        Dir::Up => o.pos <= m.tracks[c.track as int].objs[j].pos,
                        Dir::Down => o.pos >= m.tracks[c.track as int].objs[j].pos,
                    })
            }),
{
    let t = m.tracks[c.track as int];
    assert(exists|i: int| first_switch(t.objs, c, dist, i));
    let i = choose|i: int| first_switch(t.objs, c, dist, i);
    assert(t.objs[i] == m.tracks[c.track as int].objs[i]);
}

/// A walk that stops at a trailing switch without passing through any
/// connection stops either at a switch of its track that faces against it,
/// the nearest switch within reach, reporting the distance from the cursor
/// to it and the cursors `delta` before and after it; or, with no switch
/// within reach, at the end of its track (its begin, walking down) that a
/// switch connection joins, reporting the distance to that end, the cursor
/// `delta` short of it, and where the connection leads.
pub proof fn law_trailing_switch_stop(
    m: ModelView,
    c: BrCursor,
    dist: i64,
    delta: i64,
    d: i64,
    c1: BrCursor,
    c2: BrCursor,
)
    requires
        walk_within(m, c, dist, delta, 0) == WalkOutcome::Done(
            WalkResult::TrailingSwitch(d, c1, c2),
        ),
    ensures
        c.track < m.tracks.len(),
        c1.track == c.track && c1.dir == c.dir,
        (exists|i: int|
            #![trigger m.tracks[c.track as int].objs[i]]
            0 <= i < m.tracks[c.track as int].objs.len() && ({
                let o = m.tracks[c.track as int].objs[i];
                &&& o.data matches ObjectDataView::Switch { dir, .. }
                &&& dir != c.dir
                &&& ahead_within(c, dist, o.pos)
                &&& d == spec_abs(o.pos - c.offset)
                &&& c2.track == c.track && c2.dir == c.dir
                &&& c1.offset == o.pos - delta
                &&& c2.offset == o.pos + delta
                &&& forall|j: int|
                    #![trigger m.tracks[c.track as int].objs[j]]
                    0 <= j < m.tracks[c.track as int].objs.len() && m.tracks[c.track as int].objs[j].data is Switch
                        && ahead_within(c, dist, m.tracks[c.track as int].objs[j].pos) ==> (match c.dir {
                        Dir::Up => o.pos <= m.tracks[c.track as int].objs[j].pos,
                        Dir::Down => o.pos >= m.tracks[c.track as int].objs[j].pos,
                    })
            })) || ({
            let t = m.tracks[c.track as int];
            let kind = match c.dir {
                Dir::Up => t.end,
                Dir::Down => t.begin,
            };
            &&& forall|j: int|
                #![trigger t.objs[j]]
                0 <= j < t.objs.len() && t.objs[j].data is Switch ==> !ahead_within(c, dist, t.objs[j].pos)
            &&& kind matches TrackEndView::Connection(k)
            &&& m.switch_conns.contains(k)
            &&& m.connections.contains_key(k)
            &&& c2 == m.connections[k]
            &&& d == spec_abs(
                match c.dir {
                    Dir::Up => t.length - c.offset,
                    Dir::Down => c.offset as int,
                },
            )
            &&& c1.offset == (match c.dir {
                Dir::Up => t.length - delta,
                Dir::Down => delta as int,
            })
        }),
{
    let t = m.tracks[c.track as int];
    if exists|i: int| first_switch(t.objs, c, dist, i) {
        let i = choose|i: int| first_switch(t.objs, c, dist, i);
        assert(t.objs[i] == m.tracks[c.track as int].objs[i]);
    } else {
        lemma_no_first_switch(t, c, dist);
    }
}

/// Where some switch among the first `n` objects lies within reach, one of
/// them is the first met among those objects.
proof fn lemma_first_switch_among_exists(objs: Seq<ObjectView>, n: int, c: BrCursor, dist: i64)
    requires
        0 <= n <= objs.len(),
        exists|j: int| 0 <= j < n && is_switch(#[trigger] objs[j]) && in_reach(objs[j], c, dist),
    ensures
        exists|i: int| first_switch_among(objs, n, c, dist, i),
    decreases n,
{
    let last = n - 1;
    if exists|j: int| 0 <= j < last && is_switch(#[trigger] objs[j]) && in_reach(objs[j], c, dist) {
        lemma_first_switch_among_exists(objs, last, c, dist);
        let b = choose|i: int| first_switch_among(objs, last, c, dist, i);
        let o = objs[last];
        if is_switch(o) && in_reach(o, c, dist) && met_before(o, last, objs[b], b, c.dir) {
            assert forall|j: int|
                0 <= j < n && j != last && is_switch(#[trigger] objs[j]) && in_reach(objs[j], c, dist)
                    implies met_before(o, last, objs[j], j, c.dir) by {
                if j != b {
                    assert(met_before(objs[b], b, objs[j], j, c.dir));
                }
            }
            assert(first_switch_among(objs, n, c, dist, last));
        } else {
            assert forall|j: int|
                0 <= j < n && j != b && is_switch(#[trigger] objs[j]) && in_reach(objs[j], c, dist)
                    implies met_before(objs[b], b, objs[j], j, c.dir) by {
                if j != last {
                    assert(met_before(objs[b], b, objs[j], j, c.dir));
                }
            }
            assert(first_switch_among(objs, n, c, dist, b));
        }
    } else {
        let j = choose|j: int| 0 <= j < n && is_switch(#[trigger] objs[j]) && in_reach(objs[j], c, dist);
        assert(j == last);
        assert forall|k: int|
            0 <= k < n && k != last && is_switch(#[trigger] objs[k]) && in_reach(objs[k], c, dist)
                implies met_before(objs[last], last, objs[k], k, c.dir) by {
            assert(0 <= k < last);
        }
        assert(first_switch_among(objs, n, c, dist, last));
    }
}

/// Where some switch lies within reach, one of them is the first met.
proof fn lemma_some_first_switch(objs: Seq<ObjectView>, c: BrCursor, dist: i64, j: int)
    requires
        0 <= j < objs.len(),
        is_switch(objs[j]),
        in_reach(objs[j], c, dist),
    ensures
        exists|i: int| first_switch(objs, c, dist, i),
{
    assert(is_switch(objs[j]) && in_reach(objs[j], c, dist));
    lemma_first_switch_among_exists(objs, objs.len() as int, c, dist);
    let i = choose|i: int| first_switch_among(objs, objs.len() as int, c, dist, i);
    assert(first_switch(objs, c, dist, i));
}

// ---- which infrastructure a railML document is read from ----

/// `find_lower_in` gives the first element whose name, lowercased, is `l`.
proof fn lemma_find_lower_first(es: Seq<Element>, l: Seq<char>, i: int)
    requires
        0 <= i < es.len(),
        lowercase(es[i].name@) == l,
        forall|j: int| 0 <= j < i ==> lowercase(#[trigger] es[j].name@) != l,
    ensures
        find_lower_in(es, l) == Some(es[i]),
    decreases i,
{
    if i > 0 {
        let rest = es.drop_first();
        assert(lowercase(es[0].name@) != l);
        assert forall|j: int| 0 <= j < i - 1 implies lowercase(#[trigger] rest[j].name@) != l by {
            assert(rest[j] == es[j + 1]);
        }
        lemma_find_lower_first(rest, l, i - 1);
    }
}

/// `find_lower_in` gives nothing where no name, lowercased, is `l`.
proof fn lemma_find_lower_none(es: Seq<Element>, l: Seq<char>)
    requires
        forall|j: int| 0 <= j < es.len() ==> lowercase(#[trigger] es[j].name@) != l,
    ensures
        find_lower_in(es, l) is None,
    decreases es.len(),
{
    if es.len() > 0 {
        let rest = es.drop_first();
        assert(lowercase(es[0].name@) != l);
        assert forall|j: int| 0 <= j < rest.len() implies lowercase(#[trigger] rest[j].name@) != l by {
            assert(rest[j] == es[j + 1]);
        }
        lemma_find_lower_none(rest, l);
    }
}

/// A `railML` root (in any case) is read from its first child, in whatever
/// position, whose name, lowercased, is `infrastructure`: the document reads
/// as that child read on its own.
pub proof fn law_railml_reads_first_infrastructure(doc: Element, ns: Seq<char>, i: int)
    requires
        lowercase(doc.name@) == "railml"@,
        0 <= i < doc.children@.len(),
        lowercase(doc.children@[i].name@) == "infrastructure"@,
        forall|j: int| 0 <= j < i ==> lowercase(#[trigger] doc.children@[j].name@) != "infrastructure"@,
    ensures
        spec_branching_model(doc, ns) == spec_branching_model(doc.children@[i], ns),
{
    reveal_strlit("railml");
    reveal_strlit("infrastructure");
    assert("railml"@.len() != "infrastructure"@.len());
    lemma_find_lower_first(doc.children@, "infrastructure"@, i);
}

/// A `railML` root none of whose children is named `infrastructure` (in any
/// case) is refused with "No infrastructure element found".
pub proof fn law_railml_without_infrastructure(doc: Element, ns: Seq<char>)
    requires
        lowercase(doc.name@) == "railml"@,
        forall|j: int|
            0 <= j < doc.children@.len() ==> lowercase(#[trigger] doc.children@[j].name@)
                != "infrastructure"@,
    ensures
        spec_branching_model(doc, ns) == Built::<ModelView>::Refused("No infrastructure element found"@),
{
    reveal_strlit("railml");
    reveal_strlit("infrastructure");
    assert("railml"@.len() != "infrastructure"@.len());
    lemma_find_lower_none(doc.children@, "infrastructure"@);
}

/// A document whose root is named neither `railML` nor `infrastructure` (in
/// any case) is refused with "No infrastructure element found".
pub proof fn law_other_root_refused(doc: Element, ns: Seq<char>)
    requires
        lowercase(doc.name@) != "railml"@,
        lowercase(doc.name@) != "infrastructure"@,
    ensures
        spec_branching_model(doc, ns) == Built::<ModelView>::Refused("No infrastructure element found"@),
{
}

/// An `infrastructure` element (in any case) is read from its first child,
/// in whatever position, whose name, lowercased, is `tracks`: the tracks
/// under it, in order, from the empty model; with no such child it is
/// refused with "No tracks found in the infrastructure".
pub proof fn law_infrastructure_reads_first_tracks(e: Element, ns: Seq<char>)
    requires
        lowercase(e.name@) == "infrastructure"@,
    ensures
        (forall|j: int| 0 <= j < e.children@.len() ==> lowercase(#[trigger] e.children@[j].name@) != "tracks"@)
            ==> spec_branching_model(e, ns) == Built::<ModelView>::Refused(
            "No tracks found in the infrastructure"@,
        ),
        forall|i: int|
            0 <= i < e.children@.len() && lowercase(#[trigger] e.children@[i].name@) == "tracks"@ && (
            forall|j: int| 0 <= j < i ==> lowercase(#[trigger] e.children@[j].name@) != "tracks"@)
                ==> spec_branching_model(e, ns) == tracks_from(e.children@[i].children@, ns, empty_model()),
{
    if forall|j: int| 0 <= j < e.children@.len() ==> lowercase(#[trigger] e.children@[j].name@) != "tracks"@ {
        lemma_find_lower_none(e.children@, "tracks"@);
    }
    assert forall|i: int|
        0 <= i < e.children@.len() && lowercase(#[trigger] e.children@[i].name@) == "tracks"@ && (
        forall|j: int| 0 <= j < i ==> lowercase(#[trigger] e.children@[j].name@) != "tracks"@)
            implies spec_branching_model(e, ns) == tracks_from(e.children@[i].children@, ns, empty_model()) by {
        lemma_find_lower_first(e.children@, "tracks"@, i);
    }
}

/// Whether a reading is anything but the refusal for a missing
/// infrastructure element.
pub open spec fn not_missing_infrastructure<T>(b: Built<T>) -> bool {
    b matches Built::Refused(msg) ==> msg != "No infrastructure element found"@
}

proof fn lemma_signals_not_refused(els: Seq<Element>, objs: Seq<ObjectView>)
    ensures
        !(signals_from(els, objs) is Refused),
    decreases els.len(),
{
    if els.len() > 0 {
        if let Built::Done(next) = signal_step(els[0], objs) {
            lemma_signals_not_refused(els.drop_first(), next);
        }
    }
}

proof fn lemma_detectors_not_refused(els: Seq<Element>, objs: Seq<ObjectView>)
    ensures
        !(detectors_from(els, objs) is Refused),
    decreases els.len(),
{
    if els.len() > 0 {
        if let Built::Done(next) = detector_step(els[0], objs) {
            lemma_detectors_not_refused(els.drop_first(), next);
        }
    }
}

proof fn lemma_switches_not_refused(els: Seq<Element>, track: usize, st: SwitchState)
    ensures
        !(switches_from(els, track, st) is Refused),
    decreases els.len(),
{
    if els.len() > 0 {
        if let Built::Done(next) = switch_step(els[0], track, st) {
            lemma_switches_not_refused(els.drop_first(), track, next);
        }
    }
}

/// A refusal text that starts with `prefix`, which differs from the missing
/// infrastructure text at its fourth character, is not that text.
proof fn lemma_prefix_differs(prefix: Seq<char>, rest: Seq<char>)
    requires
        prefix.len() > 3,
        prefix[3] != 'i',
    ensures
        prefix + rest != "No infrastructure element found"@,
{
    reveal_strlit("No infrastructure element found");
    assert((prefix + rest)[3] == prefix[3]);
    assert("No infrastructure element found"@[3] == 'i');
}

proof fn lemma_track_step_not_missing(t: Element, ns: Seq<char>, m: ModelView)
    ensures
        not_missing_infrastructure(track_step(t, ns, m)),
{
    if lowercase(t.name@) == "track"@ {
        match track_header(t, ns) {
            Built::Done(h) => {
                let (name, length, tb, te) = h;
                let idx: usize = m.tracks.len() as usize;
                if let Built::Done((begin, c1)) = track_end_spec(tb, ns, idx, 0, Dir::Up, m.connections) {
                    if let Built::Done((end, c2)) = track_end_spec(te, ns, idx, length, Dir::Down, c1) {
                        lemma_signals_not_refused(signal_elements(t, ns), Seq::empty());
                        if let Built::Done(o1) = signals_from(signal_elements(t, ns), Seq::empty()) {
                            lemma_detectors_not_refused(detector_elements(t, ns), o1);
                            if let Built::Done(o2) = detectors_from(detector_elements(t, ns), o1) {
                                lemma_switches_not_refused(switch_elements(t, ns), idx, (o2, c2, m.switch_conns));
                            }
                        }
                    }
                }
            },
            _ => {
                reveal_strlit("No name for track");
                reveal_strlit("No trackTopology element in track ");
                reveal_strlit("No trackEnd element on track ");
                reveal_strlit("No pos attribute on trackEnd on track ");
                reveal_strlit("No trackBegin found on track ");
                reveal_strlit("ParseFloatError { kind: Empty }");
                reveal_strlit("ParseFloatError { kind: Invalid }");
                reveal_strlit("length beyond 64-bit millimetres");
                reveal_strlit("No infrastructure element found");
                let name = spec_attr(t, "name"@)->Some_0;
                let q = debug_quoted(name);
                lemma_prefix_differs("No name for track"@, Seq::empty());
                assert("No name for track"@ + Seq::<char>::empty() =~= "No name for track"@);
                lemma_prefix_differs("No trackTopology element in track "@, q);
                lemma_prefix_differs("No trackEnd element on track "@, q);
                lemma_prefix_differs("No pos attribute on trackEnd on track "@, q);
                lemma_prefix_differs("No trackBegin found on track "@, q + "."@);
                assert("No trackBegin found on track "@ + q + "."@ =~= "No trackBegin found on track "@ + (q + "."@));
                lemma_prefix_differs("ParseFloatError { kind: Empty }"@, Seq::empty());
                assert("ParseFloatError { kind: Empty }"@ + Seq::<char>::empty() =~= "ParseFloatError { kind: Empty }"@);
                lemma_prefix_differs("ParseFloatError { kind: Invalid }"@, Seq::empty());
                assert("ParseFloatError { kind: Invalid }"@ + Seq::<char>::empty() =~= "ParseFloatError { kind: Invalid }"@);
                lemma_prefix_differs("length beyond 64-bit millimetres"@, Seq::empty());
                assert("length beyond 64-bit millimetres"@ + Seq::<char>::empty() =~= "length beyond 64-bit millimetres"@);
            },
        }
    }
}

proof fn lemma_tracks_not_missing(els: Seq<Element>, ns: Seq<char>, m: ModelView)
    ensures
        not_missing_infrastructure(tracks_from(els, ns, m)),
    decreases els.len(),
{
    if els.len() > 0 {
        lemma_track_step_not_missing(els[0], ns, m);
        if let Built::Done(next) = track_step(els[0], ns, m) {
            lemma_tracks_not_missing(els.drop_first(), ns, next);
        }
    }
}

/// An `infrastructure` element (in any case) is never refused for want of an
/// infrastructure element, whatever it holds.
pub proof fn law_infrastructure_is_found(e: Element, ns: Seq<char>)
    requires
        lowercase(e.name@) == "infrastructure"@,
    ensures
        spec_branching_model(e, ns) != Built::<ModelView>::Refused("No infrastructure element found"@),
{
    reveal_strlit("No tracks found in the infrastructure");
    lemma_prefix_differs("No tracks found in the infrastructure"@, Seq::empty());
    assert("No tracks found in the infrastructure"@ + Seq::<char>::empty() =~= "No tracks found in the infrastructure"@);
    if let Some(tracks) = find_lower_in(e.children@, "tracks"@) {
        lemma_tracks_not_missing(tracks.children@, ns, empty_model());
    }
}

/// A `railML` root (in any case) is refused with "No infrastructure element
/// found" exactly when none of its children is named `infrastructure` (in
/// any case).
pub proof fn law_railml_refused_iff_no_infrastructure(doc: Element, ns: Seq<char>)
    requires
        lowercase(doc.name@) == "railml"@,
    ensures
        (spec_branching_model(doc, ns) == Built::<ModelView>::Refused("No infrastructure element found"@))
            <==> (forall|j: int|
            0 <= j < doc.children@.len() ==> lowercase(#[trigger] doc.children@[j].name@)
                != "infrastructure"@),
{
    if forall|j: int|
        0 <= j < doc.children@.len() ==> lowercase(#[trigger] doc.children@[j].name@)
            != "infrastructure"@ {
        law_railml_without_infrastructure(doc, ns);
    } else {
        let es = doc.children@;
        let l = "infrastructure"@;
        let w = choose|j: int| 0 <= j < es.len() && lowercase(#[trigger] es[j].name@) == l;
        lemma_first_named_lower(es, l, w);
        let i = choose|i: int| 0 <= i < es.len() && lowercase(#[trigger] es[i].name@) == l
            && forall|j: int| 0 <= j < i ==> lowercase(#[trigger] es[j].name@) != l;
        law_railml_reads_first_infrastructure(doc, ns, i);
        law_infrastructure_is_found(es[i], ns);
    }
}

/// Where some name, lowercased, is `l`, there is a first such.
proof fn lemma_first_named_lower(es: Seq<Element>, l: Seq<char>, w: int)
    requires
        0 <= w < es.len(),
        lowercase(es[w].name@) == l,
    ensures
        exists|i: int| 0 <= i < es.len() && lowercase(#[trigger] es[i].name@) == l
            && forall|j: int| 0 <= j < i ==> lowercase(#[trigger] es[j].name@) != l,
    decreases w,
{
    if exists|j: int| 0 <= j < w && lowercase(#[trigger] es[j].name@) == l {
        let v = choose|j: int| 0 <= j < w && lowercase(#[trigger] es[j].name@) == l;
        lemma_first_named_lower(es, l, v);
    } else {
        assert(0 <= w < es.len() && lowercase(es[w].name@) == l
            && forall|j: int| 0 <= j < w ==> lowercase(#[trigger] es[j].name@) != l);
    }
}

// ---- what one signal and one switch add ----

/// A `signal` element with an id, a position and a sight that read, and a
/// direction `up` or `down`, is kept as a signal object at its position,
/// facing its direction, exactly when its type is absent, `main` or
/// `combined`; of any other type it adds nothing.
pub proof fn law_signal_kept_by_type(s: Element, objs: Seq<ObjectView>)
    requires
        s.name@ == "signal"@,
        spec_attr(s, "id"@) is Some,
        spec_attr(s, "pos"@) matches Some(p) && spec_parse_length(p) is Ok,
        signal_sight(s) is Ok,
        spec_attr(s, "dir"@) == Some("up"@) || spec_attr(s, "dir"@) == Some("down"@),
    ensures
        ({
            let t = spec_attr(s, "type"@);
            let kept = objs.push(
                ObjectView {
                    name: spec_attr(s, "id"@)->Some_0,
                    pos: spec_parse_length(spec_attr(s, "pos"@)->Some_0)->Ok_0,
                    data: ObjectDataView::Signal {
                        dir: if spec_attr(s, "dir"@) == Some("up"@) {
                            Dir::Up
                        } else {
                            Dir::Down
                        },
                        sight: signal_sight(s)->Ok_0,
                    },
                },
            );
            &&& (t is None || t == Some("main"@) || t == Some("combined"@)) ==> signal_step(s, objs)
                == Built::Done(kept)
            &&& !(t is None || t == Some("main"@) || t == Some("combined"@)) ==> signal_step(s, objs)
                == Built::Done(objs)
        }),
{
    reveal_strlit("up");
    reveal_strlit("down");
    assert("up"@.len() != "down"@.len());
}

/// A `signal` element whose direction is neither `up` nor `down` adds
/// nothing, where its id, position and sight read.
pub proof fn law_signal_without_direction_skipped(s: Element, objs: Seq<ObjectView>)
    requires
        s.name@ == "signal"@,
        spec_attr(s, "id"@) is Some,
        spec_attr(s, "pos"@) matches Some(p) && spec_parse_length(p) is Ok,
        signal_sight(s) is Ok,
        spec_attr(s, "dir"@) != Some("up"@),
        spec_attr(s, "dir"@) != Some("down"@),
    ensures
        signal_step(s, objs) == Built::Done(objs),
{
}

/// A `trainDetector` or `trackCircuitBorder` element with an id and a
/// position that reads is kept as a detector object at that position;
/// elements of any other name add nothing.
pub proof fn law_detector_kept_by_name(d: Element, objs: Seq<ObjectView>)
    ensures
        !(d.name@ == "trainDetector"@ || d.name@ == "trackCircuitBorder"@) ==> detector_step(d, objs)
            == Built::Done(objs),
        (d.name@ == "trainDetector"@ || d.name@ == "trackCircuitBorder"@) && spec_attr(d, "id"@) is Some
            && (spec_attr(d, "pos"@) matches Some(p) && spec_parse_length(p) is Ok) ==> detector_step(
            d,
            objs,
        ) == Built::Done(
            objs.push(
                ObjectView {
                    name: spec_attr(d, "id"@)->Some_0,
                    pos: spec_parse_length(spec_attr(d, "pos"@)->Some_0)->Ok_0,
                    data: ObjectDataView::Detector,
                },
            ),
        ),
{
}

/// Reading a `switch` element of track number `track` adds one switch
/// object, named by the element's id and placed at its position; maps the
/// reverse `(ref, id)` of its branch `(id, ref)` to a cursor on that same
/// track, at the switch's position, facing against the switch; and adds both
/// orders of the branch to the switch connections. Nothing else changes.
pub proof fn law_switch_step_adds_branch(sw: Element, track: usize, st: SwitchState, r: SwitchState)
    requires
        sw.name@ == "switch"@,
        switch_step(sw, track, st) == Built::Done(r),
    ensures
        r.0.len() == st.0.len() + 1,
        r.0.drop_last() == st.0,
        spec_attr(sw, "id"@) == Some(r.0.last().name),
        spec_attr(sw, "pos"@) matches Some(p) && spec_parse_length(p) == Ok::<i64, LengthError>(r.0.last().pos),
        r.0.last().data matches ObjectDataView::Switch { dir, conn, .. } && {
            &&& r.1 == st.1.insert(
                (conn.1, conn.0),
                BrCursor { track, offset: r.0.last().pos, dir: spec_opposite(dir) },
            )
            &&& r.2 == st.2.insert(conn).insert((conn.1, conn.0))
        },
        count_named(sw.children@, "connection"@) == 1,
        ({
            let cn = first_named(sw.children@, "connection"@)->Some_0;
            let orientation = spec_attr(cn, "orientation"@);
            let course = spec_attr(cn, "course"@);
            r.0.last().data matches ObjectDataView::Switch { dir, side, conn } && {
                &&& conn == (spec_attr(cn, "id"@)->Some_0, spec_attr(cn, "ref"@)->Some_0)
                &&& spec_attr(cn, "id"@) is Some && spec_attr(cn, "ref"@) is Some
                &&& (orientation == Some("outgoing"@) && dir == Dir::Up) || (orientation == Some(
                    "incoming"@,
                ) && dir == Dir::Down)
                &&& (course == Some("left"@) && side == Side::Left) || (course == Some("right"@)
                    && side == Side::Right)
            }
        }),
{
    assert(r.0.drop_last() =~= st.0);
}

// ---- what one track adds ----

/// Whether track end `e` is what element `n` (a `trackBegin` or `trackEnd`)
/// says: a connection `(id, ref)` where it holds a `connection`, else a
/// boundary named by the id of an `openEnd` it holds, else a plain stop.
pub open spec fn end_read_from(n: Element, ns: Seq<char>, e: TrackEndView) -> bool {
    match spec_child(n, "connection"@, ns) {
        Some(c) => e == TrackEndView::Connection(
            (spec_attr(c, "id"@)->Some_0, spec_attr(c, "ref"@)->Some_0),
        ),
        None => match spec_child(n, "openEnd"@, ns) {
            Some(o) => e == TrackEndView::Boundary(spec_attr(o, "id"@)->Some_0),
            None => e == TrackEndView::Stop,
        },
    }
}

/// An element under `tracks` whose name, lowercased, is not `track` leaves
/// the model as it is; one that is a track and reads adds one track at the
/// end, keeping those before, named by its `name`, as long as the `pos` of
/// its `trackEnd` reads, and with the ends that its `trackBegin` and
/// `trackEnd` say.
pub proof fn law_track_step_adds_track(t: Element, ns: Seq<char>, m: ModelView)
    requires
        track_step(t, ns, m) is Done,
    ensures
        lowercase(t.name@) != "track"@ ==> track_step(t, ns, m) == Built::Done(m),
        lowercase(t.name@) == "track"@ ==> {
            let m2 = track_step(t, ns, m)->Done_0;
            let tv = m2.tracks.last();
            let topo = spec_child(t, "trackTopology"@, ns)->Some_0;
            let tb = spec_child(topo, "trackBegin"@, ns)->Some_0;
            let te = spec_child(topo, "trackEnd"@, ns)->Some_0;
            &&& m2.tracks.len() == m.tracks.len() + 1
            &&& m2.tracks.drop_last() == m.tracks
            &&& spec_attr(t, "name"@) == Some(tv.name)
            &&& spec_child(t, "trackTopology"@, ns) is Some
            &&& spec_child(topo, "trackBegin"@, ns) is Some
            &&& spec_child(topo, "trackEnd"@, ns) is Some
            &&& spec_attr(te, "pos"@) matches Some(p) && spec_parse_length(p) == Ok::<i64, LengthError>(
                tv.length,
            )
            &&& end_read_from(tb, ns, tv.begin)
            &&& end_read_from(te, ns, tv.end)
        },
{
    if lowercase(t.name@) == "track"@ {
        let m2 = track_step(t, ns, m)->Done_0;
        assert(m2.tracks.drop_last() =~= m.tracks);
    }
}

// ---- where each connection of a read model comes from ----

/// Whether switch object `o`, with branch `conn`, is the one whose branch
/// leads to cursor `c`: `c` stands at the switch, facing against it.
pub open spec fn switch_leads(o: ObjectView, conn: (Seq<char>, Seq<char>), c: BrCursor) -> bool {
    &&& o.data matches ObjectDataView::Switch { dir, conn: oc, .. }
    &&& oc == conn
    &&& o.pos == c.offset
    &&& c.dir == spec_opposite(dir)
}

/// Whether the cursor under key `(ref, id)` lies on a track of `m` that
/// holds what put it there, with branch or connection `(id, ref)`: the
/// track's begin (the cursor at 0, facing up), its end (at its length,
/// facing down), or a switch of the track (at the switch, facing against
/// it).
pub open spec fn cursor_traced(m: ModelView, k: (Seq<char>, Seq<char>)) -> bool {
    let c = m.connections[k];
    let back = (k.1, k.0);
    &&& c.track < m.tracks.len()
    &&& ({
        let t = m.tracks[c.track as int];
        ||| (t.begin == TrackEndView::Connection(back) && c.offset == 0 && c.dir == Dir::Up)
        ||| (t.end == TrackEndView::Connection(back) && c.offset == t.length && c.dir == Dir::Down)
        ||| exists|i: int| 0 <= i < t.objs.len() && #[trigger] switch_leads(t.objs[i], back, c)
    })
}

/// Whether every connection of `m` is traced to its track.
pub open spec fn connections_traced(m: ModelView) -> bool {
    forall|k: (Seq<char>, Seq<char>)| #[trigger] m.connections.contains_key(k) ==> cursor_traced(m, k)
}

/// Reading the switches of track number `track` leaves each connection as
/// it was, or makes it lead onto that same track, to a switch read there
/// whose branch it reverses, facing against that switch.
pub proof fn law_switch_branches_lead_to_their_track(els: Seq<Element>, track: usize, st: SwitchState)
    requires
        switches_from(els, track, st) is Done,
    ensures
        ({
            let r = switches_from(els, track, st)->Done_0;
            forall|k: (Seq<char>, Seq<char>)| #[trigger] r.1.contains_key(k) ==> {
                ||| (st.1.contains_key(k) && r.1[k] == st.1[k])
                ||| (r.1[k].track == track && exists|i: int|
                    st.0.len() <= i < r.0.len() && #[trigger] switch_leads(r.0[i], (k.1, k.0), r.1[k]))
            }
        }),
    decreases els.len(),
{
    if els.len() > 0 {
        let next = switch_step(els[0], track, st)->Done_0;
        law_switch_branches_lead_to_their_track(els.drop_first(), track, next);
        law_switches_add_both_orders(els.drop_first(), track, next);
        let r = switches_from(els, track, st)->Done_0;
        assert(r == switches_from(els.drop_first(), track, next)->Done_0);
        if els[0].name@ == "switch"@ {
            law_switch_step_adds_branch(els[0], track, st, next);
            let o = next.0.last();
            let n0 = st.0.len() as int;
            assert(r.0[n0] == o) by {
                assert(r.0.take(n0 + 1)[n0] == next.0[n0]);
            }
            assert forall|k: (Seq<char>, Seq<char>)| #[trigger] r.1.contains_key(k) implies {
                ||| (st.1.contains_key(k) && r.1[k] == st.1[k])
                ||| (r.1[k].track == track && exists|i: int|
                    st.0.len() <= i < r.0.len() && #[trigger] switch_leads(r.0[i], (k.1, k.0), r.1[k]))
            } by {
                if next.1.contains_key(k) && r.1[k] == next.1[k] {
                    let conn = o.data->Switch_conn;
                    if k == (conn.1, conn.0) {
                        assert(switch_leads(r.0[n0], (k.1, k.0), r.1[k]));
                    }
                } else {
                    let i = choose|i: int|
                        next.0.len() <= i < r.0.len() && #[trigger] switch_leads(r.0[i], (k.1, k.0), r.1[k]);
                    assert(switch_leads(r.0[i], (k.1, k.0), r.1[k]));
                }
            }
        }
    }
}

/// A connection traced in `m` stays traced in `m2` when it leads to the same
/// cursor and the track it leads onto is unchanged.
proof fn lemma_traced_kept(m: ModelView, m2: ModelView, k: (Seq<char>, Seq<char>))
    requires
        m.connections.contains_key(k),
        cursor_traced(m, k),
        m2.connections.contains_key(k),
        m2.connections[k] == m.connections[k],
        m.tracks.len() <= m2.tracks.len(),
        m2.tracks[m.connections[k].track as int] == m.tracks[m.connections[k].track as int],
    ensures
        cursor_traced(m2, k),
{
    let c = m.connections[k];
    let t = m.tracks[c.track as int];
    let back = (k.1, k.0);
    if exists|i: int| 0 <= i < t.objs.len() && #[trigger] switch_leads(t.objs[i], back, c) {
        let i = choose|i: int| 0 <= i < t.objs.len() && #[trigger] switch_leads(t.objs[i], back, c);
        assert(switch_leads(m2.tracks[c.track as int].objs[i], back, m2.connections[k]));
    }
}

proof fn lemma_track_step_traced(t: Element, ns: Seq<char>, m: ModelView)
    requires
        connections_traced(m),
        m.tracks.len() < usize::MAX,
        track_step(t, ns, m) is Done,
    ensures
        connections_traced(track_step(t, ns, m)->Done_0),
        track_step(t, ns, m)->Done_0.tracks.len() <= m.tracks.len() + 1,
{
    if lowercase(t.name@) == "track"@ {
        let h = track_header(t, ns)->Done_0;
        let (name, length, tb, te) = h;
        let idx: usize = m.tracks.len() as usize;
        let (begin, c1) = track_end_spec(tb, ns, idx, 0, Dir::Up, m.connections)->Done_0;
        let (end, c2) = track_end_spec(te, ns, idx, length, Dir::Down, c1)->Done_0;
        let o1 = signals_from(signal_elements(t, ns), Seq::empty())->Done_0;
        let o2 = detectors_from(detector_elements(t, ns), o1)->Done_0;
        let st = (o2, c2, m.switch_conns);
        let (o3, c3, s3) = switches_from(switch_elements(t, ns), idx, st)->Done_0;
        let m2 = track_step(t, ns, m)->Done_0;
        let tv = TrackView { name, begin, objs: o3, length, end };
        assert(m2.tracks == m.tracks.push(tv));
        assert(m2.connections == c3);
        law_switch_branches_lead_to_their_track(switch_elements(t, ns), idx, st);
        assert forall|k: (Seq<char>, Seq<char>)| #[trigger] m2.connections.contains_key(k) implies cursor_traced(
            m2,
            k,
        ) by {
            let back = (k.1, k.0);
            if c2.contains_key(k) && c3[k] == c2[k] {
                if end is Connection && k == (end->Connection_0.1, end->Connection_0.0) {
                    assert(m2.tracks[idx as int] == tv);
                } else {
                    assert(c2[k] == c1[k]);
                    if begin is Connection && k == (begin->Connection_0.1, begin->Connection_0.0) {
                        assert(m2.tracks[idx as int] == tv);
                    } else {
                        assert(m.connections.contains_key(k));
                        assert(c1[k] == m.connections[k]);
                        assert(cursor_traced(m, k));
                        assert(m2.tracks[m.connections[k].track as int] == m.tracks[m.connections[k].track as int]);
                        lemma_traced_kept(m, m2, k);
                    }
                }
            } else {
                let i = choose|i: int|
                    o2.len() <= i < o3.len() && #[trigger] switch_leads(o3[i], back, c3[k]);
                assert(m2.tracks[idx as int] == tv);
                assert(switch_leads(m2.tracks[idx as int].objs[i], back, m2.connections[k]));
            }
        }
    }
}

proof fn lemma_tracks_traced(els: Seq<Element>, ns: Seq<char>, m: ModelView)
    requires
        connections_traced(m),
        m.tracks.len() + els.len() <= usize::MAX,
        tracks_from(els, ns, m) is Done,
    ensures
        connections_traced(tracks_from(els, ns, m)->Done_0),
    decreases els.len(),
{
    if els.len() > 0 {
        lemma_track_step_traced(els[0], ns, m);
        lemma_tracks_traced(els.drop_first(), ns, track_step(els[0], ns, m)->Done_0);
    }
}

/// In a model read from a document, every connection leads onto the track
/// that put it there: to that track's begin or end where the track ends in
/// that connection, or, for a switch's branch, to the switch on the track
/// that holds it, facing against the switch.
pub proof fn law_read_model_connections_traced(doc: Element, ns: Seq<char>)
    requires
        spec_branching_model(doc, ns) is Done,
    ensures
        connections_traced(spec_branching_model(doc, ns)->Done_0),
{
    let infra = infrastructure_of(doc)->Some_0;
    let tracks = find_lower_in(infra.children@, "tracks"@)->Some_0;
    assert(tracks.children.len() == tracks.children@.len());
    lemma_tracks_traced(tracks.children@, ns, empty_model());
}

} // verus!
