use vstd::prelude::*;
use crate::direction::{spec_opposite, Dir, Side};
use crate::length::{length_error_text, parse_length, spec_parse_length, LengthError};
use crate::model::{
    BrCursor, BrObject, BrObjectData, BrTrack, BrTrackEnd, BranchingModel, ConnectionMap,
    ConnectionSet, ModelView, ObjectDataView, ObjectView, TrackEndView, TrackView, objects_view,
    tracks_view,
};
use crate::text::{debug_quote, debug_quoted, lowercase, str_eq, to_lowercase};
use crate::laws::{
    law_read_model_is_closed, law_read_model_reverse_keys, law_read_model_tracks_and_switches,
    model_keys_closed, model_switches_recorded, model_wf,
};
use crate::xml::{
    Element, count_named, first_named, find_lower_in, spec_attr, spec_child,
};

verus! {

/// Where reading a model can end: with a value, with a refusal that the
/// reader reports as an error, on input that it cannot read at all, or on a
/// length that is infinite, `NaN` or beyond 64 bits of millimetres.
pub enum Built<T> {
    Done(T),
    Refused(Seq<char>),
    Malformed(Seq<char>),
    Unrepresentable(Seq<char>),
}

/// Whether a reading ends with a model or a refusal.
pub open spec fn readable<T>(b: Built<T>) -> bool {
    !(b is Malformed) && !(b is Unrepresentable)
}

/// The same failure, for a reading of another kind.
pub open spec fn fail_as<A, B>(b: Built<A>) -> Built<B> {
    match b {
        Built::Refused(m) => Built::Refused(m),
        Built::Malformed(m) => Built::Malformed(m),
        Built::Unrepresentable(m) => Built::Unrepresentable(m),
        Built::Done(_) => Built::Malformed(Seq::empty()),
    }
}

/// Why an infrastructure could not be read into a model.
#[derive(Debug)]
pub enum BuildError {
    /// The infrastructure lacks something that the model needs.
    Refused(String),
    /// The infrastructure holds something that cannot be read.
    Malformed(String),
    /// The infrastructure holds a length that is infinite, `NaN`, or beyond
    /// 64 bits of millimetres.
    Unrepresentable(String),
}

/// Whether `e` is the failure `b`.
pub open spec fn error_matches<T>(e: BuildError, b: Built<T>) -> bool {
    match (e, b) {
        (BuildError::Refused(m), Built::Refused(n)) => m@ == n,
        (BuildError::Malformed(m), Built::Malformed(n)) => m@ == n,
        (BuildError::Unrepresentable(m), Built::Unrepresentable(n)) => m@ == n,
        _ => false,
    }
}

pub type ConnMapView = Map<(Seq<char>, Seq<char>), BrCursor>;

pub type ConnSetView = Set<(Seq<char>, Seq<char>)>;

/// The sight of a signal that does not state one: 200 m.
pub const DEFAULT_SIGHT: i64 = 200_000;

// ---- track ends ----

/// How one end of a track reads, and the connection that it adds: a
/// `connection` child `(id, ref)` maps `(ref, id)` to a cursor at `offset`
/// facing `dir`; an `openEnd` child is a boundary named by its id; anything
/// else is a stop.
pub open spec fn track_end_spec(
    n: Element,
    ns: Seq<char>,
    track: usize,
    offset: i64,
    dir: Dir,
    conns: ConnMapView,
) -> Built<(TrackEndView, ConnMapView)> {
    match spec_child(n, "connection"@, ns) {
        Some(c) => match spec_attr(c, "id"@) {
            None => Built::Malformed("Connection has no id."@),
            Some(id) => match spec_attr(c, "ref"@) {
                None => Built::Malformed("Connection has no ref."@),
                Some(r) => Built::Done(
                    (
                        TrackEndView::Connection((id, r)),
                        conns.insert((r, id), BrCursor { track, offset, dir }),
                    ),
                ),
            },
        },
        None => match spec_child(n, "openEnd"@, ns) {
            Some(e) => match spec_attr(e, "id"@) {
                None => Built::Malformed("openEnd has no id."@),
                Some(name) => Built::Done((TrackEndView::Boundary(name), conns)),
            },
            None => Built::Done((TrackEndView::Stop, conns)),
        },
    }
}

// ---- signals ----

/// The elements under `ocsElements/signals` of a track, or none.
pub open spec fn signal_elements(t: Element, ns: Seq<char>) -> Seq<Element> {
    match spec_child(t, "ocsElements"@, ns) {
        Some(o) => match spec_child(o, "signals"@, ns) {
            Some(s) => s.children@,
            None => Seq::empty(),
        },
        None => Seq::empty(),
    }
}

/// `up` and `down` name directions.
pub open spec fn direction_named(a: Option<Seq<char>>) -> Option<Dir> {
    if a == Some("up"@) {
        Some(Dir::Up)
    } else if a == Some("down"@) {
        Some(Dir::Down)
    } else {
        None
    }
}

/// A signal counts unless its type is stated and is neither `main` nor
/// `combined`.
pub open spec fn signal_type_counts(a: Option<Seq<char>>) -> bool {
    a is None || a == Some("main"@) || a == Some("combined"@)
}

/// The sight of a signal: its `sight` attribute read as a length, or the
/// default when it has none.
pub open spec fn signal_sight(s: Element) -> Result<i64, LengthError> {
    match spec_attr(s, "sight"@) {
        Some(t) => spec_parse_length(t),
        None => Ok(DEFAULT_SIGHT),
    }
}

/// What one element under `signals` adds to the objects of a track.
pub open spec fn signal_step(s: Element, objs: Seq<ObjectView>) -> Built<Seq<ObjectView>> {
    if s.name@ != "signal"@ {
        Built::Done(objs)
    } else {
        match spec_attr(s, "id"@) {
            None => Built::Malformed("signal id missing"@),
            Some(id) => match spec_attr(s, "pos"@) {
                None => Built::Malformed("signal pos missing"@),
                Some(p) => match spec_parse_length(p) {
                    Err(LengthError::Unrepresentable) => Built::Unrepresentable(
                        "signal pos is not representable"@,
                    ),
                    Err(_) => Built::Malformed("signal pos is not a valid number"@),
                    Ok(pos) => match signal_sight(s) {
                        Err(LengthError::Unrepresentable) => Built::Unrepresentable(
                            "signal sight is not representable"@,
                        ),
                        Err(_) => Built::Malformed("signal sight is not a valid number"@),
                        Ok(sight) => match direction_named(spec_attr(s, "dir"@)) {
                            None => Built::Done(objs),
                            Some(dir) => if signal_type_counts(spec_attr(s, "type"@)) {
                                Built::Done(
                                    objs.push(
                                        ObjectView {
                                            name: id,
                                            pos,
                                            data: ObjectDataView::Signal { dir, sight },
                                        },
                                    ),
                                )
                            } else {
                                Built::Done(objs)
                            },
                        },
                    },
                },
            },
        }
    }
}

/// The objects after the elements `els`, in order, were read as signals.
pub open spec fn signals_from(els: Seq<Element>, objs: Seq<ObjectView>) -> Built<Seq<ObjectView>>
    decreases els.len(),
{
    if els.len() == 0 {
        Built::Done(objs)
    } else {
        match signal_step(els[0], objs) {
            Built::Done(next) => signals_from(els.drop_first(), next),
            f => f,
        }
    }
}

// ---- detectors ----

/// The elements under `ocsElements/trainDetectionElements` of a track, or none.
pub open spec fn detector_elements(t: Element, ns: Seq<char>) -> Seq<Element> {
    match spec_child(t, "ocsElements"@, ns) {
        Some(o) => match spec_child(o, "trainDetectionElements"@, ns) {
            Some(d) => d.children@,
            None => Seq::empty(),
        },
        None => Seq::empty(),
    }
}

/// What one element under `trainDetectionElements` adds to the objects of a
/// track.
pub open spec fn detector_step(d: Element, objs: Seq<ObjectView>) -> Built<Seq<ObjectView>> {
    if d.name@ != "trainDetector"@ && d.name@ != "trackCircuitBorder"@ {
        Built::Done(objs)
    } else {
        match spec_attr(d, "id"@) {
            None => Built::Malformed("detector id missing"@),
            Some(id) => match spec_attr(d, "pos"@) {
                None => Built::Malformed("detector pos missing"@),
                Some(p) => match spec_parse_length(p) {
                    Err(LengthError::Unrepresentable) => Built::Unrepresentable(
                        "detector pos is not representable"@,
                    ),
                    Err(_) => Built::Malformed("detector pos is not a valid number"@),
                    Ok(pos) => Built::Done(
                        objs.push(ObjectView { name: id, pos, data: ObjectDataView::Detector }),
                    ),
                },
            },
        }
    }
}

/// The objects after the elements `els`, in order, were read as detectors.
pub open spec fn detectors_from(els: Seq<Element>, objs: Seq<ObjectView>) -> Built<Seq<ObjectView>>
    decreases els.len(),
{
    if els.len() == 0 {
        Built::Done(objs)
    } else {
        match detector_step(els[0], objs) {
            Built::Done(next) => detectors_from(els.drop_first(), next),
            f => f,
        }
    }
}

// ---- switches ----

/// The elements under `trackTopology/connections` of a track, or none.
pub open spec fn switch_elements(t: Element, ns: Seq<char>) -> Seq<Element> {
    match spec_child(t, "trackTopology"@, ns) {
        Some(o) => match spec_child(o, "connections"@, ns) {
            Some(c) => c.children@,
            None => Seq::empty(),
        },
        None => Seq::empty(),
    }
}

/// `outgoing` switches face up the track, `incoming` ones down.
pub open spec fn orientation_named(a: Option<Seq<char>>) -> Option<Dir> {
    if a == Some("outgoing"@) {
        Some(Dir::Up)
    } else if a == Some("incoming"@) {
        Some(Dir::Down)
    } else {
        None
    }
}

/// `left` and `right` name sides.
pub open spec fn course_named(a: Option<Seq<char>>) -> Option<Side> {
    if a == Some("left"@) {
        Some(Side::Left)
    } else if a == Some("right"@) {
        Some(Side::Right)
    } else {
        None
    }
}

/// What the reading of switches keeps: the objects of the track, the
/// connections and the switch connections.
pub type SwitchState = (Seq<ObjectView>, ConnMapView, ConnSetView);

/// What one element under `connections` of track number `track` adds: a
/// switch object, the cursor that its branch `(id, ref)` leads to (under the
/// key `(ref, id)`, facing against the switch), and both orders of its
/// branch among the switch connections.
pub open spec fn switch_step(sw: Element, track: usize, st: SwitchState) -> Built<SwitchState> {
    if sw.name@ != "switch"@ {
        Built::Done(st)
    } else {
        match spec_attr(sw, "id"@) {
            None => Built::Malformed("switch id missing"@),
            Some(id) => match spec_attr(sw, "pos"@) {
                None => Built::Malformed("switch pos missing"@),
                Some(p) => match spec_parse_length(p) {
                    Err(LengthError::Unrepresentable) => Built::Unrepresentable(
                        "switch pos is not representable"@,
                    ),
                    Err(_) => Built::Malformed("switch pos is not a valid number"@),
                    Ok(pos) => switch_branch(sw, track, st, id, pos),
                },
            },
        }
    }
}

/// The rest of `switch_step`, once the switch's id and position are read.
pub open spec fn switch_branch(
    sw: Element,
    track: usize,
    st: SwitchState,
    id: Seq<char>,
    pos: i64,
) -> Built<SwitchState> {
    let n: nat = count_named(sw.children@, "connection"@);
    if n == 0 {
        Built::Malformed("No connection in switch "@ + debug_quoted(id))
    } else if n > 1 {
        Built::Malformed("Multiple connections in switch "@ + debug_quoted(id))
    } else {
        let conn = first_named(sw.children@, "connection"@).unwrap();
        match orientation_named(spec_attr(conn, "orientation"@)) {
            None => Built::Malformed("Switch orientation"@),
            Some(dir) => match course_named(spec_attr(conn, "course"@)) {
                None => Built::Malformed("Switch course"@),
                Some(side) => match (spec_attr(conn, "id"@), spec_attr(conn, "ref"@)) {
                    (Some(cid), Some(cref)) => Built::Done(
                        (
                            st.0.push(
                                ObjectView {
                                    name: id,
                                    pos,
                                    data: ObjectDataView::Switch { dir, side, conn: (cid, cref) },
                                },
                            ),
                            st.1.insert(
                                (cref, cid),
                                BrCursor { track, offset: pos, dir: spec_opposite(dir) },
                            ),
                            st.2.insert((cid, cref)).insert((cref, cid)),
                        ),
                    ),
                    _ => Built::Malformed("Switch connection ids missing"@),
                },
            },
        }
    }
}

/// The state after the elements `els`, in order, were read as switches.
pub open spec fn switches_from(els: Seq<Element>, track: usize, st: SwitchState) -> Built<
    SwitchState,
>
    decreases els.len(),
{
    if els.len() == 0 {
        Built::Done(st)
    } else {
        match switch_step(els[0], track, st) {
            Built::Done(next) => switches_from(els.drop_first(), track, next),
            f => f,
        }
    }
}

// ---- tracks ----

/// What a track must state before it is built: its name, its length (the
/// `pos` of its `trackEnd`), and its `trackBegin` and `trackEnd` elements.
pub open spec fn track_header(t: Element, ns: Seq<char>) -> Built<
    (Seq<char>, i64, Element, Element),
> {
    match spec_attr(t, "name"@) {
        None => Built::Refused("No name for track"@),
        Some(name) => match spec_child(t, "trackTopology"@, ns) {
            None => Built::Refused("No trackTopology element in track "@ + debug_quoted(name)),
            Some(topo) => match spec_child(topo, "trackEnd"@, ns) {
                None => Built::Refused("No trackEnd element on track "@ + debug_quoted(name)),
                Some(te) => match spec_attr(te, "pos"@) {
                    None => Built::Refused(
                        "No pos attribute on trackEnd on track "@ + debug_quoted(name),
                    ),
                    Some(p) => match spec_parse_length(p) {
                        Err(LengthError::Unrepresentable) => Built::Unrepresentable(
                            "trackEnd pos is not representable on track "@ + debug_quoted(name),
                        ),
                        Err(e) => Built::Refused(length_error_text(e)),
                        Ok(length) => match spec_child(topo, "trackBegin"@, ns) {
                            None => Built::Refused(
                                "No trackBegin found on track "@ + debug_quoted(name) + "."@,
                            ),
                            Some(tb) => Built::Done((name, length, tb, te)),
                        },
                    },
                },
            },
        },
    }
}

/// The model after track `t`, stated by `header`, is added to `m` as its
/// next track.
pub open spec fn track_body(
    t: Element,
    ns: Seq<char>,
    m: ModelView,
    header: (Seq<char>, i64, Element, Element),
) -> Built<ModelView> {
    let (name, length, tb, te): (Seq<char>, i64, Element, Element) = header;
    let idx: usize = m.tracks.len() as usize;
    match track_end_spec(tb, ns, idx, 0, Dir::Up, m.connections) {
        Built::Done((begin, c1)) => match track_end_spec(te, ns, idx, length, Dir::Down, c1) {
            Built::Done((end, c2)) => match signals_from(signal_elements(t, ns), Seq::empty()) {
                Built::Done(o1) => match detectors_from(detector_elements(t, ns), o1) {
                    Built::Done(o2) => match switches_from(
                        switch_elements(t, ns),
                        idx,
                        (o2, c2, m.switch_conns),
                    ) {
                        Built::Done((o3, c3, s3)) => Built::Done(
                            ModelView {
                                tracks: m.tracks.push(
                                    TrackView { name, begin, objs: o3, length, end },
                                ),
                                connections: c3,
                                switch_conns: s3,
                            },
                        ),
                        f => fail_as(f),
                    },
                    f => fail_as(f),
                },
                f => fail_as(f),
            },
            f => fail_as(f),
        },
        f => fail_as(f),
    }
}

/// What one element under `tracks` does to the model: elements whose name is
/// `track` (in any case) add a track.
pub open spec fn track_step(t: Element, ns: Seq<char>, m: ModelView) -> Built<ModelView> {
    if lowercase(t.name@) != "track"@ {
        Built::Done(m)
    } else {
        match track_header(t, ns) {
            Built::Done(h) => track_body(t, ns, m, h),
            f => fail_as(f),
        }
    }
}

/// The model after the elements `els`, in order, were read as tracks.
pub open spec fn tracks_from(els: Seq<Element>, ns: Seq<char>, m: ModelView) -> Built<ModelView>
    decreases els.len(),
{
    if els.len() == 0 {
        Built::Done(m)
    } else {
        match track_step(els[0], ns, m) {
            Built::Done(next) => tracks_from(els.drop_first(), ns, next),
            f => f,
        }
    }
}

/// The model with no tracks and no connections.
pub open spec fn empty_model() -> ModelView {
    ModelView { tracks: Seq::empty(), connections: Map::empty(), switch_conns: Set::empty() }
}

/// The `infrastructure` element of a document: the document itself, or the
/// first child of a `railML` root (names in any case).
pub open spec fn infrastructure_of(doc: Element) -> Option<Element> {
    if lowercase(doc.name@) == "infrastructure"@ {
        Some(doc)
    } else if lowercase(doc.name@) == "railml"@ {
        find_lower_in(doc.children@, "infrastructure"@)
    } else {
        None
    }
}

/// The branching model of a railML document, read with the namespace `ns`.
pub open spec fn spec_branching_model(doc: Element, ns: Seq<char>) -> Built<ModelView> {
    match infrastructure_of(doc) {
        None => Built::Refused("No infrastructure element found"@),
        Some(infra) => match find_lower_in(infra.children@, "tracks"@) {
            None => Built::Refused("No tracks found in the infrastructure"@),
            Some(tracks) => tracks_from(tracks.children@, ns, empty_model()),
        },
    }
}

// ---- warnings ----

/// Something the reader reports about a document that it reads all the same.
#[derive(Debug)]
pub enum Warning {
    /// A signal, by id, that states no sight: the default sight is used.
    NoSight(String),
    /// A train detector, by id, that states a direction, which the model
    /// does not keep.
    DirectionalDetector(String),
}

pub enum WarningView {
    NoSight(Seq<char>),
    DirectionalDetector(Seq<char>),
}

impl View for Warning {
    type V = WarningView;

    open spec fn view(&self) -> WarningView {
        match self {
            Warning::NoSight(id) => WarningView::NoSight(id@),
            Warning::DirectionalDetector(id) => WarningView::DirectionalDetector(id@),
        }
    }
}

/// The warnings of a sequence, each read as a value.
pub open spec fn warnings_view(w: Seq<Warning>) -> Seq<WarningView> {
    w.map_values(|x: Warning| x@)
}

/// The warning that an element under `signals` gives: a signal with an id
/// and no sight.
pub open spec fn signal_warning(s: Element) -> Seq<WarningView> {
    if s.name@ == "signal"@ && spec_attr(s, "sight"@) is None && spec_attr(s, "id"@) is Some {
        seq![WarningView::NoSight(spec_attr(s, "id"@).unwrap())]
    } else {
        Seq::empty()
    }
}

/// The warnings that the elements `els` under `signals` give, in order.
pub open spec fn signal_warnings(els: Seq<Element>) -> Seq<WarningView>
    decreases els.len(),
{
    if els.len() == 0 {
        Seq::empty()
    } else {
        signal_warning(els[0]) + signal_warnings(els.drop_first())
    }
}

/// The warning that an element under `trainDetectionElements` gives: a
/// detector with an id whose `dir` is `up` or `down`.
pub open spec fn detector_warning(d: Element) -> Seq<WarningView> {
    if (d.name@ == "trainDetector"@ || d.name@ == "trackCircuitBorder"@) && direction_named(
        spec_attr(d, "dir"@),
    ) is Some && spec_attr(d, "id"@) is Some {
        seq![WarningView::DirectionalDetector(spec_attr(d, "id"@).unwrap())]
    } else {
        Seq::empty()
    }
}

/// The warnings that the elements `els` under `trainDetectionElements`
/// give, in order.
pub open spec fn detector_warnings(els: Seq<Element>) -> Seq<WarningView>
    decreases els.len(),
{
    if els.len() == 0 {
        Seq::empty()
    } else {
        detector_warning(els[0]) + detector_warnings(els.drop_first())
    }
}

/// The warnings that reading one element under `tracks` gives: those of
/// its signals, then those of its detectors.
pub open spec fn track_warnings(t: Element, ns: Seq<char>) -> Seq<WarningView> {
    if lowercase(t.name@) == "track"@ {
        signal_warnings(signal_elements(t, ns)) + detector_warnings(detector_elements(t, ns))
    } else {
        Seq::empty()
    }
}

/// The warnings of the elements `els` under `tracks` that are read before
/// the reading stops.
pub open spec fn warnings_from(els: Seq<Element>, ns: Seq<char>, m: ModelView) -> Seq<WarningView>
    decreases els.len(),
{
    if els.len() == 0 {
        Seq::empty()
    } else {
        match track_step(els[0], ns, m) {
            Built::Done(next) => track_warnings(els[0], ns) + warnings_from(els.drop_first(), ns, next),
            _ => Seq::empty(),
        }
    }
}

/// The warnings that reading a document gives.
pub open spec fn document_warnings(doc: Element, ns: Seq<char>) -> Seq<WarningView> {
    match infrastructure_of(doc) {
        None => Seq::empty(),
        Some(infra) => match find_lower_in(infra.children@, "tracks"@) {
            None => Seq::empty(),
            Some(tracks) => warnings_from(tracks.children@, ns, empty_model()),
        },
    }
}

// ---- reading ----

fn malformed(msg: &str) -> (e: BuildError)
    ensures
        e == BuildError::Malformed(e->Malformed_0) && e->Malformed_0@ == msg@,
{
    BuildError::Malformed(String::from_str(msg))
}

fn unrepresentable(msg: &str) -> (e: BuildError)
    ensures
        e == BuildError::Unrepresentable(e->Unrepresentable_0) && e->Unrepresentable_0@ == msg@,
{
    BuildError::Unrepresentable(String::from_str(msg))
}

fn refused(msg: &str) -> (e: BuildError)
    ensures
        e == BuildError::Refused(e->Refused_0) && e->Refused_0@ == msg@,
{
    BuildError::Refused(String::from_str(msg))
}

/// Reads one end of track number `track` (see `track_end_spec`).
fn track_end(
    n: &Element,
    ns: &str,
    track: usize,
    offset: i64,
    dir: Dir,
    conns: &mut ConnectionMap,
) -> (r: Result<BrTrackEnd, BuildError>)
    ensures
        (match track_end_spec(*n, ns@, track, offset, dir, old(conns)@) {
            Built::Done((v, c)) => r matches Ok(e) && e@ == v && final(conns)@ == c,
            f => r matches Err(e) && error_matches(e, f),
        }),
{
    match n.get_child("connection", ns) {
        Some(c) => {
            let id = match c.attr("id") {
                None => {
                    return Err(malformed("Connection has no id."));
                },
                Some(x) => x,
            };
            let rf = match c.attr("ref") {
                None => {
                    return Err(malformed("Connection has no ref."));
                },
                Some(x) => x,
            };
            conns.insert((rf.clone(), id.clone()), BrCursor { track, offset, dir });
            Ok(BrTrackEnd::Connection((id.clone(), rf.clone())))
        },
        None => match n.get_child("openEnd", ns) {
            Some(e) => match e.attr("id") {
                None => Err(malformed("openEnd has no id.")),
                Some(x) => Ok(BrTrackEnd::Boundary(x.clone())),
            },
            None => Ok(BrTrackEnd::Stop),
        },
    }
}

proof fn lemma_objects_view_push(v: Seq<BrObject>, x: BrObject)
    ensures
        objects_view(v.push(x)) == objects_view(v).push(x@),
{
    assert(objects_view(v.push(x)) =~= objects_view(v).push(x@));
}

/// Whether an attribute value is the given text.
fn attr_is(a: Option<&String>, text: &str) -> (r: bool)
    ensures
        r == (a matches Some(x) && x@ == text@),
{
    match a {
        Some(x) => str_eq(x.as_str(), text),
        None => false,
    }
}

/// Reads one element under `signals` (see `signal_step`).
fn read_signal(objs: &mut Vec<BrObject>, s: &Element) -> (r: Result<(), BuildError>)
    ensures
        (match signal_step(*s, objects_view(old(objs)@)) {
            Built::Done(o) => r is Ok && objects_view(final(objs)@) == o,
            f => r matches Err(e) && error_matches(e, f),
        }),
{
    if !str_eq(s.name.as_str(), "signal") {
        return Ok(());
    }
    let id = match s.attr("id") {
        None => {
            return Err(malformed("signal id missing"));
        },
        Some(x) => x,
    };
    let pos: i64 = match s.attr("pos") {
        None => {
            return Err(malformed("signal pos missing"));
        },
        Some(p) => match parse_length(p.as_str()) {
            Ok(x) => x,
            Err(LengthError::Unrepresentable) => {
                return Err(unrepresentable("signal pos is not representable"));
            },
            Err(_) => {
                return Err(malformed("signal pos is not a valid number"));
            },
        },
    };
    let sight: i64 = match s.attr("sight") {
        Some(t) => match parse_length(t.as_str()) {
            Ok(x) => x,
            Err(LengthError::Unrepresentable) => {
                return Err(unrepresentable("signal sight is not representable"));
            },
            Err(_) => {
                return Err(malformed("signal sight is not a valid number"));
            },
        },
        None => DEFAULT_SIGHT,
    };
    let dir_attr = s.attr("dir");
    let dir = if attr_is(dir_attr, "up") {
        Dir::Up
    } else if attr_is(dir_attr, "down") {
        Dir::Down
    } else {
        return Ok(());
    };
    let type_attr = s.attr("type");
    if type_attr.is_none() || attr_is(type_attr, "main") || attr_is(type_attr, "combined") {
        let obj = BrObject {
            name: id.clone(),
            pos,
            data: BrObjectData::Signal { dir, sight },
        };
        proof {
            lemma_objects_view_push(objs@, obj);
        }
        objs.push(obj);
    }
    Ok(())
}

/// Reads the elements `els`, in order, as signals (see `signals_from`).
fn read_signals_from(objs: &mut Vec<BrObject>, els: &Vec<Element>) -> (r: Result<(), BuildError>)
    ensures
        (match signals_from(els@, objects_view(old(objs)@)) {
            Built::Done(o) => r is Ok && objects_view(final(objs)@) == o,
            f => r matches Err(e) && error_matches(e, f),
        }),
{
    let n: usize = els.len();
    let mut i: usize = 0;
    assert(els@.skip(0) =~= els@);
    while i < n
        invariant
            n == els@.len(),
            i <= n,
            signals_from(els@, objects_view(old(objs)@)) == signals_from(
                els@.skip(i as int),
                objects_view(objs@),
            ),
        decreases n - i,
    {
        assert(els@.skip(i as int).drop_first() =~= els@.skip(i + 1));
        assert(els@.skip(i as int)[0] == els@[i as int]);
        let r = read_signal(objs, &els[i]);
        if r.is_err() {
            return r;
        }
        i = i + 1;
    }
    Ok(())
}

/// Reads the signals of track `track` to `objs`: the elements under
/// `ocsElements/signals` called `signal` that state a direction, unless their
/// type says that they do not count.
fn read_signals(objs: &mut Vec<BrObject>, track: &Element, ns: &str) -> (r: Result<(), BuildError>)
    ensures
        (match signals_from(signal_elements(*track, ns@), objects_view(old(objs)@)) {
            Built::Done(o) => r is Ok && objects_view(final(objs)@) == o,
            f => r matches Err(e) && error_matches(e, f),
        }),
{
    match track.get_child("ocsElements", ns) {
        Some(o) => match o.get_child("signals", ns) {
            Some(sg) => read_signals_from(objs, &sg.children),
            None => Ok(()),
        },
        None => Ok(()),
    }
}

/// Reads one element under `trainDetectionElements` (see `detector_step`).
fn read_detector(objs: &mut Vec<BrObject>, d: &Element) -> (r: Result<(), BuildError>)
    ensures
        (match detector_step(*d, objects_view(old(objs)@)) {
            Built::Done(o) => r is Ok && objects_view(final(objs)@) == o,
            f => r matches Err(e) && error_matches(e, f),
        }),
{
    if !str_eq(d.name.as_str(), "trainDetector") && !str_eq(d.name.as_str(), "trackCircuitBorder") {
        return Ok(());
    }
    let id = match d.attr("id") {
        None => {
            return Err(malformed("detector id missing"));
        },
        Some(x) => x,
    };
    let pos: i64 = match d.attr("pos") {
        None => {
            return Err(malformed("detector pos missing"));
        },
        Some(p) => match parse_length(p.as_str()) {
            Ok(x) => x,
            Err(LengthError::Unrepresentable) => {
                return Err(unrepresentable("detector pos is not representable"));
            },
            Err(_) => {
                return Err(malformed("detector pos is not a valid number"));
            },
        },
    };
    let obj = BrObject { name: id.clone(), pos, data: BrObjectData::Detector };
    proof {
        lemma_objects_view_push(objs@, obj);
    }
    objs.push(obj);
    Ok(())
}

/// Reads the elements `els`, in order, as detectors (see `detectors_from`).
fn read_detectors_from(objs: &mut Vec<BrObject>, els: &Vec<Element>) -> (r: Result<(), BuildError>)
    ensures
        (match detectors_from(els@, objects_view(old(objs)@)) {
            Built::Done(o) => r is Ok && objects_view(final(objs)@) == o,
            f => r matches Err(e) && error_matches(e, f),
        }),
{
    let n: usize = els.len();
    let mut i: usize = 0;
    assert(els@.skip(0) =~= els@);
    while i < n
        invariant
            n == els@.len(),
            i <= n,
            detectors_from(els@, objects_view(old(objs)@)) == detectors_from(
                els@.skip(i as int),
                objects_view(objs@),
            ),
        decreases n - i,
    {
        assert(els@.skip(i as int).drop_first() =~= els@.skip(i + 1));
        assert(els@.skip(i as int)[0] == els@[i as int]);
        let r = read_detector(objs, &els[i]);
        if r.is_err() {
            return r;
        }
        i = i + 1;
    }
    Ok(())
}

/// Reads the train detectors and track circuit borders of track `track` to
/// `objs`: the elements under `ocsElements/trainDetectionElements` with those
/// names.
fn read_detectors(objs: &mut Vec<BrObject>, track: &Element, ns: &str) -> (r: Result<(), BuildError>)
    ensures
        (match detectors_from(detector_elements(*track, ns@), objects_view(old(objs)@)) {
            Built::Done(o) => r is Ok && objects_view(final(objs)@) == o,
            f => r matches Err(e) && error_matches(e, f),
        }),
{
    match track.get_child("ocsElements", ns) {
        Some(o) => match o.get_child("trainDetectionElements", ns) {
            Some(dg) => read_detectors_from(objs, &dg.children),
            None => Ok(()),
        },
        None => Ok(()),
    }
}

proof fn lemma_first_named_exists(es: Seq<Element>, name: Seq<char>)
    requires
        count_named(es, name) > 0,
    ensures
        first_named(es, name) is Some,
    decreases es.len(),
{
    if es.len() > 0 && es[0].name@ != name {
        lemma_first_named_exists(es.drop_first(), name);
    }
}

/// `text` followed by the quoted `name`.
fn message_with_name(text: &str, name: &str) -> (m: String)
    ensures
        m@ == text@ + debug_quoted(name@),
{
    let mut m = String::from_str(text);
    let q = debug_quote(name);
    m.append(q.as_str());
    m
}

/// Reads one element under `connections` of track number `track` (see
/// `switch_step`).
fn read_switch(
    objs: &mut Vec<BrObject>,
    conns: &mut ConnectionMap,
    switch_conns: &mut ConnectionSet,
    sw: &Element,
    track: usize,
) -> (r: Result<(), BuildError>)
    ensures
        (match switch_step(*sw, track, (objects_view(old(objs)@), old(conns)@, old(switch_conns)@)) {
            Built::Done((o, c, s)) => r is Ok && objects_view(final(objs)@) == o && final(conns)@ == c
                && final(switch_conns)@ == s,
            f => r matches Err(e) && error_matches(e, f),
        }),
{
    if !str_eq(sw.name.as_str(), "switch") {
        return Ok(());
    }
    let id = match sw.attr("id") {
        None => {
            return Err(malformed("switch id missing"));
        },
        Some(x) => x,
    };
    let pos: i64 = match sw.attr("pos") {
        None => {
            return Err(malformed("switch pos missing"));
        },
        Some(p) => match parse_length(p.as_str()) {
            Ok(x) => x,
            Err(LengthError::Unrepresentable) => {
                return Err(unrepresentable("switch pos is not representable"));
            },
            Err(_) => {
                return Err(malformed("switch pos is not a valid number"));
            },
        },
    };
    let (count, first): (usize, Option<&Element>) = sw.children_named("connection");
    if count == 0 {
        return Err(BuildError::Malformed(message_with_name("No connection in switch ", id.as_str())));
    }
    if count > 1 {
        return Err(
            BuildError::Malformed(message_with_name("Multiple connections in switch ", id.as_str())),
        );
    }
    proof {
        lemma_first_named_exists(sw.children@, "connection"@);
    }
    let conn = first.unwrap();
    let orientation = conn.attr("orientation");
    let dir = if attr_is(orientation, "outgoing") {
        Dir::Up
    } else if attr_is(orientation, "incoming") {
        Dir::Down
    } else {
        return Err(malformed("Switch orientation"));
    };
    let course = conn.attr("course");
    let side = if attr_is(course, "left") {
        Side::Left
    } else if attr_is(course, "right") {
        Side::Right
    } else {
        return Err(malformed("Switch course"));
    };
    let (cid, cref) = match (conn.attr("id"), conn.attr("ref")) {
        (Some(a), Some(b)) => (a, b),
        _ => {
            return Err(malformed("Switch connection ids missing"));
        },
    };
    conns.insert((cref.clone(), cid.clone()), BrCursor { track, offset: pos, dir: dir.opposite() });
    switch_conns.insert((cid.clone(), cref.clone()));
    switch_conns.insert((cref.clone(), cid.clone()));
    let obj = BrObject {
        name: id.clone(),
        pos,
        data: BrObjectData::Switch { dir, side, conn: (cid.clone(), cref.clone()) },
    };
    proof {
        lemma_objects_view_push(objs@, obj);
    }
    objs.push(obj);
    Ok(())
}

/// Reads the elements `els`, in order, as switches of track number `track`
/// (see `switches_from`).
fn read_switches_from(
    objs: &mut Vec<BrObject>,
    conns: &mut ConnectionMap,
    switch_conns: &mut ConnectionSet,
    els: &Vec<Element>,
    track: usize,
) -> (r: Result<(), BuildError>)
    ensures
        (match switches_from(els@, track, (objects_view(old(objs)@), old(conns)@, old(switch_conns)@)) {
            Built::Done((o, c, s)) => r is Ok && objects_view(final(objs)@) == o && final(conns)@ == c
                && final(switch_conns)@ == s,
            f => r matches Err(e) && error_matches(e, f),
        }),
{
    let n: usize = els.len();
    let mut i: usize = 0;
    assert(els@.skip(0) =~= els@);
    while i < n
        invariant
            n == els@.len(),
            i <= n,
            switches_from(els@, track, (objects_view(old(objs)@), old(conns)@, old(switch_conns)@))
                == switches_from(
                els@.skip(i as int),
                track,
                (objects_view(objs@), conns@, switch_conns@),
            ),
        decreases n - i,
    {
        assert(els@.skip(i as int).drop_first() =~= els@.skip(i + 1));
        assert(els@.skip(i as int)[0] == els@[i as int]);
        let r = read_switch(objs, conns, switch_conns, &els[i], track);
        if r.is_err() {
            return r;
        }
        i = i + 1;
    }
    Ok(())
}

/// Reads the switches of track number `track`: the elements under
/// `trackTopology/connections` called `switch`, each with exactly one
/// `connection` child that states its orientation, course, id and ref.
fn read_switches(
    objs: &mut Vec<BrObject>,
    conns: &mut ConnectionMap,
    switch_conns: &mut ConnectionSet,
    track_el: &Element,
    track: usize,
    ns: &str,
) -> (r: Result<(), BuildError>)
    ensures
        (match switches_from(
            switch_elements(*track_el, ns@),
            track,
            (objects_view(old(objs)@), old(conns)@, old(switch_conns)@),
        ) {
            Built::Done((o, c, s)) => r is Ok && objects_view(final(objs)@) == o && final(conns)@ == c
                && final(switch_conns)@ == s,
            f => r matches Err(e) && error_matches(e, f),
        }),
{
    match track_el.get_child("trackTopology", ns) {
        Some(o) => match o.get_child("connections", ns) {
            Some(cg) => read_switches_from(objs, conns, switch_conns, &cg.children, track),
            None => Ok(()),
        },
        None => Ok(()),
    }
}

/// Reads what a track must state before it is built (see `track_header`).
fn read_track_header<'a>(t: &'a Element, ns: &str) -> (r: Result<
    (&'a String, i64, &'a Element, &'a Element),
    BuildError,
>)
    ensures
        (match track_header(*t, ns@) {
            Built::Done((name, length, tb, te)) => r matches Ok(h) && h.0@ == name && h.1 == length
                && *h.2 == tb && *h.3 == te,
            f => r matches Err(e) && error_matches(e, f),
        }),
{
    let name = match t.attr("name") {
        None => {
            return Err(refused("No name for track"));
        },
        Some(x) => x,
    };
    let topo = match t.get_child("trackTopology", ns) {
        None => {
            return Err(
                BuildError::Refused(
                    message_with_name("No trackTopology element in track ", name.as_str()),
                ),
            );
        },
        Some(x) => x,
    };
    let te = match topo.get_child("trackEnd", ns) {
        None => {
            return Err(
                BuildError::Refused(message_with_name("No trackEnd element on track ", name.as_str())),
            );
        },
        Some(x) => x,
    };
    let length: i64 = match te.attr("pos") {
        None => {
            return Err(
                BuildError::Refused(
                    message_with_name("No pos attribute on trackEnd on track ", name.as_str()),
                ),
            );
        },
        Some(p) => match parse_length(p.as_str()) {
            Ok(x) => x,
            Err(LengthError::Unrepresentable) => {
                return Err(
                    BuildError::Unrepresentable(
                        message_with_name("trackEnd pos is not representable on track ", name.as_str()),
                    ),
                );
            },
            Err(e) => {
                return Err(BuildError::Refused(e.message()));
            },
        },
    };
    let tb = match topo.get_child("trackBegin", ns) {
        None => {
            let mut m = message_with_name("No trackBegin found on track ", name.as_str());
            m.append(".");
            return Err(BuildError::Refused(m));
        },
        Some(x) => x,
    };
    Ok((name, length, tb, te))
}

proof fn lemma_tracks_view_push(v: Seq<BrTrack>, x: BrTrack)
    ensures
        tracks_view(v.push(x)) == tracks_view(v).push(x@),
{
    assert(tracks_view(v.push(x)) =~= tracks_view(v).push(x@));
}

/// Reads one element under `tracks` (see `track_step`).
fn read_track(model: &mut BranchingModel, t: &Element, ns: &str) -> (r: Result<(), BuildError>)
    ensures
        (match track_step(*t, ns@, old(model)@) {
            Built::Done(m) => r is Ok && final(model)@ == m,
            f => r matches Err(e) && error_matches(e, f),
        }),
{
    let lower = to_lowercase(t.name.as_str());
    if !str_eq(lower.as_str(), "track") {
        return Ok(());
    }
    let (name, length, tb, te): (&String, i64, &Element, &Element) = match read_track_header(t, ns) {
        Ok(h) => h,
        Err(e) => {
            return Err(e);
        },
    };
    let track_idx: usize = model.tracks.len();
    let begin = match track_end(tb, ns, track_idx, 0, Dir::Up, &mut model.connections) {
        Ok(x) => x,
        Err(e) => {
            return Err(e);
        },
    };
    let end = match track_end(te, ns, track_idx, length, Dir::Down, &mut model.connections) {
        Ok(x) => x,
        Err(e) => {
            return Err(e);
        },
    };
    let mut objs: Vec<BrObject> = Vec::new();
    assert(objects_view(objs@) =~= Seq::<ObjectView>::empty());
    match read_signals(&mut objs, t, ns) {
        Ok(()) => {},
        Err(e) => {
            return Err(e);
        },
    }
    match read_detectors(&mut objs, t, ns) {
        Ok(()) => {},
        Err(e) => {
            return Err(e);
        },
    }
    match read_switches(&mut objs, &mut model.connections, &mut model.switch_conns, t, track_idx, ns) {
        Ok(()) => {},
        Err(e) => {
            return Err(e);
        },
    }
    let track = BrTrack { name: name.clone(), begin, objs, length, end };
    proof {
        lemma_tracks_view_push(model.tracks@, track);
    }
    model.tracks.push(track);
    Ok(())
}

/// Reads a railML document into its branching model, telling apart the
/// documents that lack something the model needs (`Refused`) from those that
/// hold something that cannot be read (`Malformed`).
pub fn build_branching_model(doc: &Element, ns: &str) -> (r: Result<BranchingModel, BuildError>)
    ensures
        (match spec_branching_model(*doc, ns@) {
            Built::Done(m) => r matches Ok(x) && x@ == m,
            f => r matches Err(e) && error_matches(e, f),
        }),
        r matches Ok(x) ==> model_wf(x@) && model_switches_recorded(x@) && model_keys_closed(x@),
{
    let lower = to_lowercase(doc.name.as_str());
    let infra = if str_eq(lower.as_str(), "infrastructure") {
        doc
    } else if str_eq(lower.as_str(), "railml") {
        match doc.first_child_lowercase("infrastructure") {
            Some(i) => i,
            None => {
                return Err(refused("No infrastructure element found"));
            },
        }
    } else {
        return Err(refused("No infrastructure element found"));
    };
    let tracks = match infra.first_child_lowercase("tracks") {
        Some(t) => t,
        None => {
            return Err(refused("No tracks found in the infrastructure"));
        },
    };
    let mut model = BranchingModel {
        tracks: Vec::new(),
        connections: ConnectionMap::new(),
        switch_conns: ConnectionSet::new(),
    };
    assert(model@ =~= empty_model()) by {
        assert(tracks_view(model.tracks@) =~= Seq::<TrackView>::empty());
    }
    let els = &tracks.children;
    let n: usize = els.len();
    let mut i: usize = 0;
    assert(els@.skip(0) =~= els@);
    while i < n
        invariant
            n == els@.len(),
            i <= n,
            spec_branching_model(*doc, ns@) == tracks_from(els@, ns@, empty_model()),
            tracks_from(els@, ns@, empty_model()) == tracks_from(els@.skip(i as int), ns@, model@),
        decreases n - i,
    {
        assert(els@.skip(i as int).drop_first() =~= els@.skip(i + 1));
        assert(els@.skip(i as int)[0] == els@[i as int]);
        let ghost before = model@;
        match read_track(&mut model, &els[i], ns) {
            Ok(()) => {},
            Err(e) => {
                assert(tracks_from(els@.skip(i as int), ns@, before) == track_step(
                    els@[i as int],
                    ns@,
                    before,
                ));
                return Err(e);
            },
        }
        i = i + 1;
    }
    proof {
        law_read_model_is_closed(*doc, ns@);
        law_read_model_tracks_and_switches(*doc, ns@);
        law_read_model_reverse_keys(*doc, ns@);
    }
    Ok(model)
}

proof fn lemma_warnings_view_push(v: Seq<Warning>, x: Warning)
    ensures
        warnings_view(v.push(x)) == warnings_view(v).push(x@),
{
    assert(warnings_view(v.push(x)) =~= warnings_view(v).push(x@));
}

proof fn lemma_signals_not_refused(els: Seq<Element>, objs: Seq<ObjectView>)
    ensures
        !(signals_from(els, objs) is Refused),
    decreases els.len(),
{
    if els.len() > 0 {
        if signal_step(els[0], objs) is Done {
            lemma_signals_not_refused(els.drop_first(), signal_step(els[0], objs)->Done_0);
        }
    }
}

proof fn lemma_detectors_not_refused(els: Seq<Element>, objs: Seq<ObjectView>)
    ensures
        !(detectors_from(els, objs) is Refused),
    decreases els.len(),
{
    if els.len() > 0 {
        if detector_step(els[0], objs) is Done {
            lemma_detectors_not_refused(els.drop_first(), detector_step(els[0], objs)->Done_0);
        }
    }
}

proof fn lemma_switches_not_refused(els: Seq<Element>, track: usize, st: SwitchState)
    ensures
        !(switches_from(els, track, st) is Refused),
    decreases els.len(),
{
    if els.len() > 0 {
        if switch_step(els[0], track, st) is Done {
            lemma_switches_not_refused(els.drop_first(), track, switch_step(els[0], track, st)->Done_0);
        }
    }
}

fn no_warnings() -> (w: Vec<Warning>)
    ensures
        warnings_view(w@) == Seq::<WarningView>::empty(),
{
    let w: Vec<Warning> = Vec::new();
    assert(warnings_view(w@) =~= Seq::<WarningView>::empty());
    w
}

/// The warnings that the elements `els` under `signals` give.
fn signal_warnings_of(els: &Vec<Element>) -> (w: Vec<Warning>)
    ensures
        warnings_view(w@) == signal_warnings(els@),
{
    let mut w: Vec<Warning> = Vec::new();
    let n: usize = els.len();
    let mut i: usize = 0;
    assert(els@.skip(0) =~= els@);
    assert(warnings_view(w@) =~= Seq::<WarningView>::empty());
    while i < n
        invariant
            n == els@.len(),
            i <= n,
            signal_warnings(els@) == warnings_view(w@) + signal_warnings(els@.skip(i as int)),
        decreases n - i,
    {
        assert(els@.skip(i as int).drop_first() =~= els@.skip(i + 1));
        assert(els@.skip(i as int)[0] == els@[i as int]);
        let s = &els[i];
        let before = Ghost(warnings_view(w@));
        if str_eq(s.name.as_str(), "signal") && s.attr("sight").is_none() {
            match s.attr("id") {
                Some(id) => {
                    let x = Warning::NoSight(id.clone());
                    proof {
                        lemma_warnings_view_push(w@, x);
                    }
                    w.push(x);
                },
                None => {},
            }
        }
        assert(signal_warnings(els@) =~= warnings_view(w@) + signal_warnings(els@.skip(i + 1)));
        i = i + 1;
    }
    assert(signal_warnings(els@.skip(n as int)) =~= Seq::<WarningView>::empty());
    w
}

/// The warnings that the elements `els` under `trainDetectionElements`
/// give.
fn detector_warnings_of(els: &Vec<Element>) -> (w: Vec<Warning>)
    ensures
        warnings_view(w@) == detector_warnings(els@),
{
    let mut w: Vec<Warning> = Vec::new();
    let n: usize = els.len();
    let mut i: usize = 0;
    assert(els@.skip(0) =~= els@);
    assert(warnings_view(w@) =~= Seq::<WarningView>::empty());
    while i < n
        invariant
            n == els@.len(),
            i <= n,
            detector_warnings(els@) == warnings_view(w@) + detector_warnings(els@.skip(i as int)),
        decreases n - i,
    {
        assert(els@.skip(i as int).drop_first() =~= els@.skip(i + 1));
        assert(els@.skip(i as int)[0] == els@[i as int]);
        let d = &els[i];
        let named = str_eq(d.name.as_str(), "trainDetector") || str_eq(
            d.name.as_str(),
            "trackCircuitBorder",
        );
        let dir = d.attr("dir");
        if named && (attr_is(dir, "up") || attr_is(dir, "down")) {
            match d.attr("id") {
                Some(id) => {
                    let x = Warning::DirectionalDetector(id.clone());
                    proof {
                        lemma_warnings_view_push(w@, x);
                    }
                    w.push(x);
                },
                None => {},
            }
        }
        assert(detector_warnings(els@) =~= warnings_view(w@) + detector_warnings(els@.skip(i + 1)));
        i = i + 1;
    }
    assert(detector_warnings(els@.skip(n as int)) =~= Seq::<WarningView>::empty());
    w
}

/// Adds the signals of track `track` to `objs` (see `signals_from`) on a
/// track whose signals can be read, and gives the warnings about them: the
/// ids of the signals that state no sight, in order.
fn add_signals(objs: &mut Vec<BrObject>, track: &Element, ns: &str) -> (w: Vec<Warning>)
    requires
        signals_from(signal_elements(*track, ns@), objects_view(old(objs)@)) is Done,
    ensures
        objects_view(final(objs)@) == signals_from(
            signal_elements(*track, ns@),
            objects_view(old(objs)@),
        )->Done_0,
        warnings_view(w@) == signal_warnings(signal_elements(*track, ns@)),
{
    let _outcome = read_signals(objs, track, ns);
    match track.get_child("ocsElements", ns) {
        Some(o) => match o.get_child("signals", ns) {
            Some(sg) => signal_warnings_of(&sg.children),
            None => {
                no_warnings()
            },
        },
        None => {
            no_warnings()
        },
    }
}

/// Adds the train detectors and track circuit borders of track `track` to
/// `objs` (see `detectors_from`) on a track whose detectors can be read, and
/// gives the warnings about them: the ids of the detectors that state a
/// direction, in order.
fn add_detectors(objs: &mut Vec<BrObject>, track: &Element, ns: &str) -> (w: Vec<Warning>)
    requires
        detectors_from(detector_elements(*track, ns@), objects_view(old(objs)@)) is Done,
    ensures
        objects_view(final(objs)@) == detectors_from(
            detector_elements(*track, ns@),
            objects_view(old(objs)@),
        )->Done_0,
        warnings_view(w@) == detector_warnings(detector_elements(*track, ns@)),
{
    let _outcome = read_detectors(objs, track, ns);
    match track.get_child("ocsElements", ns) {
        Some(o) => match o.get_child("trainDetectionElements", ns) {
            Some(dg) => detector_warnings_of(&dg.children),
            None => {
                no_warnings()
            },
        },
        None => {
            no_warnings()
        },
    }
}

/// Adds the switches of track number `track` (see `switches_from`) on a
/// track whose switches can be read.
fn add_switches(
    objs: &mut Vec<BrObject>,
    conns: &mut ConnectionMap,
    switch_conns: &mut ConnectionSet,
    track_el: &Element,
    track: usize,
    ns: &str,
)
    requires
        switches_from(
            switch_elements(*track_el, ns@),
            track,
            (objects_view(old(objs)@), old(conns)@, old(switch_conns)@),
        ) is Done,
    ensures
        (objects_view(final(objs)@), final(conns)@, final(switch_conns)@) == switches_from(
            switch_elements(*track_el, ns@),
            track,
            (objects_view(old(objs)@), old(conns)@, old(switch_conns)@),
        )->Done_0,
{
    let _outcome = read_switches(objs, conns, switch_conns, track_el, track, ns);
}

/// Adds the track `t` to the model when `t` can be read (see `track_step`),
/// giving the warnings about it, or the message that says what it lacks.
fn add_track(model: &mut BranchingModel, t: &Element, ns: &str) -> (r: Result<Vec<Warning>, String>)
    requires
        readable(track_step(*t, ns@, old(model)@)),
    ensures
        (match track_step(*t, ns@, old(model)@) {
            Built::Done(m) => r matches Ok(w) && final(model)@ == m && warnings_view(w@)
                == track_warnings(*t, ns@),
            Built::Refused(msg) => r matches Err(e) && e@ == msg,
            _ => false,
        }),
{
    let lower = to_lowercase(t.name.as_str());
    if !str_eq(lower.as_str(), "track") {
        return Ok(no_warnings());
    }
    let (name, length, tb, te): (&String, i64, &Element, &Element) = match read_track_header(t, ns) {
        Ok(h) => h,
        Err(BuildError::Refused(msg)) => {
            return Err(msg);
        },
        Err(BuildError::Malformed(msg)) => {
            return Err(msg);
        },
        Err(BuildError::Unrepresentable(msg)) => {
            return Err(msg);
        },
    };
    let track_idx: usize = model.tracks.len();
    let begin = match track_end(tb, ns, track_idx, 0, Dir::Up, &mut model.connections) {
        Ok(x) => x,
        Err(_) => {
            return Err(String::new());
        },
    };
    let end = match track_end(te, ns, track_idx, length, Dir::Down, &mut model.connections) {
        Ok(x) => x,
        Err(_) => {
            return Err(String::new());
        },
    };
    let mut objs: Vec<BrObject> = Vec::new();
    assert(objects_view(objs@) =~= Seq::<ObjectView>::empty());
    proof {
        lemma_signals_not_refused(signal_elements(*t, ns@), Seq::empty());
    }
    let mut warnings = add_signals(&mut objs, t, ns);
    proof {
        lemma_detectors_not_refused(detector_elements(*t, ns@), objects_view(objs@));
    }
    let mut more = add_detectors(&mut objs, t, ns);
    proof {
        lemma_switches_not_refused(
            switch_elements(*t, ns@),
            track_idx,
            (objects_view(objs@), model.connections@, model.switch_conns@),
        );
    }
    let ghost w1 = warnings@;
    let ghost w2 = more@;
    warnings.append(&mut more);
    assert(warnings_view(warnings@) =~= warnings_view(w1) + warnings_view(w2));
    add_switches(&mut objs, &mut model.connections, &mut model.switch_conns, t, track_idx, ns);
    let track = BrTrack { name: name.clone(), begin, objs, length, end };
    proof {
        lemma_tracks_view_push(model.tracks@, track);
    }
    model.tracks.push(track);
    Ok(warnings)
}

/// Reads a railML document into its branching model (lengths in
/// millimetres), or gives the message that says what the document lacks;
/// appends to `warnings` what the reader reports about the tracks that it
/// read. The document must be readable: nothing in the tracks read before a
/// refusal may be unreadable (a signal, detector or switch without its id or
/// position, a switch without exactly one well-formed connection, a track end
/// whose connection lacks its id or ref), and no length there may be
/// infinite, `NaN` or beyond 64 bits of millimetres. `read_branching_model`
/// tells such documents apart.
pub fn get_branching_model(doc: &Element, ns: &str, warnings: &mut Vec<Warning>) -> (r: Result<
    BranchingModel,
    String,
>)
    requires
        readable(spec_branching_model(*doc, ns@)),
    ensures
        (match spec_branching_model(*doc, ns@) {
            Built::Done(m) => r matches Ok(x) && x@ == m,
            Built::Refused(msg) => r matches Err(e) && e@ == msg,
            _ => false,
        }),
        r matches Ok(x) ==> model_wf(x@) && model_switches_recorded(x@) && model_keys_closed(x@),
        warnings_view(final(warnings)@) == warnings_view(old(warnings)@) + document_warnings(
            *doc,
            ns@,
        ),
{
    let lower = to_lowercase(doc.name.as_str());
    let infra = if str_eq(lower.as_str(), "infrastructure") {
        doc
    } else if str_eq(lower.as_str(), "railml") {
        match doc.first_child_lowercase("infrastructure") {
            Some(i) => i,
            None => {
                assert(warnings_view(warnings@) =~= warnings_view(old(warnings)@) + Seq::<WarningView>::empty());
                return Err(String::from_str("No infrastructure element found"));
            },
        }
    } else {
        assert(warnings_view(warnings@) =~= warnings_view(old(warnings)@) + Seq::<WarningView>::empty());
        return Err(String::from_str("No infrastructure element found"));
    };
    let tracks = match infra.first_child_lowercase("tracks") {
        Some(t) => t,
        None => {
            assert(warnings_view(warnings@) =~= warnings_view(old(warnings)@) + Seq::<WarningView>::empty());
            return Err(String::from_str("No tracks found in the infrastructure"));
        },
    };
    let mut model = BranchingModel {
        tracks: Vec::new(),
        connections: ConnectionMap::new(),
        switch_conns: ConnectionSet::new(),
    };
    assert(model@ =~= empty_model()) by {
        assert(tracks_view(model.tracks@) =~= Seq::<TrackView>::empty());
    }
    let els = &tracks.children;
    let n: usize = els.len();
    let mut i: usize = 0;
    assert(els@.skip(0) =~= els@);
    assert(warnings_view(warnings@) =~= warnings_view(old(warnings)@) + Seq::<WarningView>::empty());
    while i < n
        invariant
            n == els@.len(),
            i <= n,
            spec_branching_model(*doc, ns@) == tracks_from(els@, ns@, empty_model()),
            document_warnings(*doc, ns@) == warnings_from(els@, ns@, empty_model()),
            readable(tracks_from(els@.skip(i as int), ns@, model@)),
            tracks_from(els@, ns@, empty_model()) == tracks_from(els@.skip(i as int), ns@, model@),
            warnings_view(old(warnings)@) + warnings_from(els@, ns@, empty_model())
                == warnings_view(warnings@) + warnings_from(els@.skip(i as int), ns@, model@),
        decreases n - i,
    {
        assert(els@.skip(i as int).drop_first() =~= els@.skip(i + 1));
        assert(els@.skip(i as int)[0] == els@[i as int]);
        let ghost before = model@;
        let ghost wbefore = warnings_view(warnings@);
        match add_track(&mut model, &els[i], ns) {
            Ok(mut w) => {
                let ghost wt = w@;
                warnings.append(&mut w);
                assert(warnings_view(warnings@) =~= wbefore + warnings_view(wt));
                assert(warnings_view(old(warnings)@) + warnings_from(els@, ns@, empty_model())
                    =~= warnings_view(warnings@) + warnings_from(els@.skip(i + 1), ns@, model@));
            },
            Err(e) => {
                assert(tracks_from(els@.skip(i as int), ns@, before) == track_step(
                    els@[i as int],
                    ns@,
                    before,
                ));
                assert(warnings_from(els@.skip(i as int), ns@, before) =~= Seq::<WarningView>::empty());
                assert(warnings_view(warnings@) =~= warnings_view(old(warnings)@) + document_warnings(*doc, ns@));
                return Err(e);
            },
        }
        i = i + 1;
    }
    assert(warnings_from(els@.skip(n as int), ns@, model@) =~= Seq::<WarningView>::empty());
    assert(warnings_view(warnings@) =~= warnings_view(old(warnings)@) + document_warnings(*doc, ns@));
    proof {
        law_read_model_is_closed(*doc, ns@);
        law_read_model_tracks_and_switches(*doc, ns@);
        law_read_model_reverse_keys(*doc, ns@);
    }
    Ok(model)
}

/// Reads a railML document into its branching model, appending to
/// `warnings` what the reader reports: the model, or the message that says
/// what the document lacks (`Refused`); or, without reading on, the reason
/// why the document cannot be read at all (`Malformed`) or holds a length
/// beyond the model (`Unrepresentable`).
pub fn read_branching_model(doc: &Element, ns: &str, warnings: &mut Vec<Warning>) -> (r: Result<
    BranchingModel,
    BuildError,
>)
    ensures
        (match spec_branching_model(*doc, ns@) {
            Built::Done(m) => r matches Ok(x) && x@ == m,
            f => r matches Err(e) && error_matches(e, f),
        }),
        r matches Ok(x) ==> model_wf(x@) && model_switches_recorded(x@) && model_keys_closed(x@),
        readable(spec_branching_model(*doc, ns@)) ==> warnings_view(final(warnings)@)
            == warnings_view(old(warnings)@) + document_warnings(*doc, ns@),
        !readable(spec_branching_model(*doc, ns@)) ==> final(warnings)@ == old(warnings)@,
{
    match build_branching_model(doc, ns) {
        Err(BuildError::Malformed(msg)) => {
            return Err(BuildError::Malformed(msg));
        },
        Err(BuildError::Unrepresentable(msg)) => {
            return Err(BuildError::Unrepresentable(msg));
        },
        _ => {},
    }
    match get_branching_model(doc, ns, warnings) {
        Ok(m) => Ok(m),
        Err(msg) => Err(BuildError::Refused(msg)),
    }
}

} // verus!
