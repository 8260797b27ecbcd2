use railml2dgraph::branching::get_branching_model;
use railml2dgraph::direction::{Dir, Side};
use railml2dgraph::model::{
    BrCursor, BrObject, BrObjectData, BrTrack, BrTrackEnd, BranchingModel, ConnectionMap, ConnectionSet,
};
use railml2dgraph::walk::{walk, walk_bounded, WalkOutcome, WalkResult};
use railml2dgraph::xml::Element;

const NS: &str = "urn:railml";
const DELTA: i64 = 100;

fn el(name: &str, attrs: &[(&str, &str)], children: Vec<Element>) -> Element {
    Element {
        name: name.to_string(),
        namespace: Some(NS.to_string()),
        attributes: attrs.iter().map(|(k, v)| (k.to_string(), v.to_string())).collect(),
        children,
    }
}

fn conn(id: &str, r: &str) -> Element {
    el("connection", &[("id", id), ("ref", r)], vec![])
}

fn track(name: &str, length: &str, begin: Element, end: Element, switches: Vec<Element>, ocs: Vec<Element>) -> Element {
    el(
        "track",
        &[("name", name)],
        vec![
            el(
                "trackTopology",
                &[],
                vec![
                    el("trackBegin", &[], vec![begin]),
                    el("trackEnd", &[("pos", length)], vec![end]),
                    el("connections", &[], switches),
                ],
            ),
            el("ocsElements", &[], ocs),
        ],
    )
}

/// T1 (100.5 m): detector at 10, signal at 20, switch at 50 (branch s1/s2
/// to T3), detector at 70; its end joins T2 (200 m); T3 (30 m) begins at the
/// switch's branch.
fn model(orientation: &str) -> BranchingModel {
    let t1 = track(
        "T1",
        "100.5",
        el("openEnd", &[("id", "b1")], vec![]),
        conn("c1", "c2"),
        vec![el(
            "switch",
            &[("id", "sw1"), ("pos", "50")],
            vec![el(
                "connection",
                &[("id", "s1"), ("ref", "s2"), ("orientation", orientation), ("course", "left")],
                vec![],
            )],
        )],
        vec![
            el("signals", &[], vec![el("signal", &[("id", "sig"), ("pos", "20"), ("dir", "up")], vec![])]),
            el(
                "trainDetectionElements",
                &[],
                vec![
                    el("trainDetector", &[("id", "d1"), ("pos", "10")], vec![]),
                    el("trainDetector", &[("id", "d2"), ("pos", "70")], vec![]),
                ],
            ),
        ],
    );
    let t2 = track("T2", "200", conn("c2", "c1"), el("openEnd", &[("id", "e2")], vec![]), vec![], vec![]);
    let t3 = track("T3", "30", conn("s2", "s1"), el("openEnd", &[("id", "e3")], vec![]), vec![], vec![]);
    let doc = el("infrastructure", &[], vec![el("tracks", &[], vec![t1, t2, t3])]);
    get_branching_model(&doc, NS, &mut Vec::new()).unwrap()
}

fn cur(track: usize, offset: i64, dir: Dir) -> BrCursor {
    BrCursor { track, offset, dir }
}

#[test]
fn walk_within_a_track() {
    let m = model("outgoing");
    assert_eq!(walk(&m, &cur(0, 0, Dir::Up), 5_000, DELTA), WalkResult::Arrived(cur(0, 5_000, Dir::Up)));
}

#[test]
fn walk_stops_at_facing_switch() {
    let m = model("outgoing");
    assert_eq!(
        walk(&m, &cur(0, 0, Dir::Up), 60_000, DELTA),
        WalkResult::FacingSwitch(50_000, cur(0, 49_900, Dir::Up), cur(0, 50_100, Dir::Up), cur(2, 0, Dir::Up))
    );
}

#[test]
fn walk_down_stops_at_facing_switch() {
    let m = model("incoming");
    assert_eq!(
        walk(&m, &cur(0, 80_000, Dir::Down), 40_000, DELTA),
        WalkResult::FacingSwitch(30_000, cur(0, 50_100, Dir::Down), cur(0, 49_900, Dir::Down), cur(2, 0, Dir::Up))
    );
}

#[test]
fn walk_stops_at_trailing_switch() {
    let m = model("outgoing");
    assert_eq!(
        walk(&m, &cur(0, 70_000, Dir::Down), 30_000, DELTA),
        WalkResult::TrailingSwitch(20_000, cur(0, 49_900, Dir::Down), cur(0, 50_100, Dir::Down))
    );
    let m = model("incoming");
    assert_eq!(
        walk(&m, &cur(0, 0, Dir::Up), 60_000, DELTA),
        WalkResult::TrailingSwitch(50_000, cur(0, 49_900, Dir::Up), cur(0, 50_100, Dir::Up))
    );
}

#[test]
fn walk_passes_into_the_next_track() {
    let m = model("outgoing");
    assert_eq!(walk(&m, &cur(0, 60_000, Dir::Up), 100_000, DELTA), WalkResult::Arrived(cur(1, 59_500, Dir::Up)));
    assert_eq!(walk(&m, &cur(1, 1_000, Dir::Down), 5_000, DELTA), WalkResult::Arrived(cur(0, 96_500, Dir::Down)));
}

#[test]
fn walk_ends_at_open_end() {
    let m = model("outgoing");
    assert_eq!(walk(&m, &cur(2, 0, Dir::Up), 50_000, DELTA), WalkResult::End(30_000, cur(2, 29_900, Dir::Up)));
    assert_eq!(walk(&m, &cur(0, 5_000, Dir::Down), 9_000, DELTA), WalkResult::End(5_000, cur(0, 100, Dir::Down)));
}

#[test]
fn walk_onto_a_switch_branch_from_its_track_end() {
    let m = model("outgoing");
    assert_eq!(
        walk(&m, &cur(2, 1_000, Dir::Down), 5_000, DELTA),
        WalkResult::TrailingSwitch(1_000, cur(2, 100, Dir::Down), cur(0, 50_000, Dir::Down))
    );
}

#[test]
fn bounded_walk_counts_hops() {
    let m = model("outgoing");
    assert_eq!(walk_bounded(&m, &cur(0, 60_000, Dir::Up), 100_000, DELTA, 0), WalkOutcome::OutOfHops);
    assert_eq!(
        walk_bounded(&m, &cur(0, 60_000, Dir::Up), 100_000, DELTA, 1),
        WalkOutcome::Done(WalkResult::Arrived(cur(1, 59_500, Dir::Up)))
    );
    assert_eq!(
        walk_bounded(&m, &cur(0, 60_000, Dir::Up), 100_000, DELTA, 7),
        WalkOutcome::Done(walk(&m, &cur(0, 60_000, Dir::Up), 100_000, DELTA))
    );
}

#[test]
fn bounded_walk_reports_what_cannot_be_walked() {
    let m = model("outgoing");
    assert_eq!(walk_bounded(&m, &cur(9, 0, Dir::Up), 1_000, DELTA, 3), WalkOutcome::Stuck);
    // a facing switch whose branch leads nowhere
    let mut lone = model("outgoing");
    lone.connections = ConnectionMap::new();
    assert_eq!(walk_bounded(&lone, &cur(0, 0, Dir::Up), 60_000, DELTA, 3), WalkOutcome::Stuck);
}

#[test]
fn zero_length_loop_needs_ever_more_hops() {
    let mut conns = ConnectionMap::new();
    conns.insert(("a".to_string(), "b".to_string()), cur(0, 0, Dir::Up));
    let t = BrTrack {
        name: "loop".to_string(),
        begin: BrTrackEnd::Stop,
        objs: vec![],
        length: 0,
        end: BrTrackEnd::Connection(("a".to_string(), "b".to_string())),
    };
    let m = BranchingModel { tracks: vec![t], connections: conns, switch_conns: ConnectionSet::new() };
    assert_eq!(walk_bounded(&m, &cur(0, 0, Dir::Up), 10, DELTA, 1000), WalkOutcome::OutOfHops);
}

#[test]
fn of_switches_at_one_place_the_first_listed_is_met() {
    let sw = |name: &str, dir: Dir| BrObject {
        name: name.to_string(),
        pos: 5_000,
        data: BrObjectData::Switch { dir, side: Side::Left, conn: ("p".to_string(), "q".to_string()) },
    };
    let mut conns = ConnectionMap::new();
    conns.insert(("p".to_string(), "q".to_string()), cur(0, 9_000, Dir::Down));
    let t = BrTrack {
        name: "t".to_string(),
        begin: BrTrackEnd::Stop,
        objs: vec![sw("down", Dir::Down), sw("up", Dir::Up)],
        length: 10_000,
        end: BrTrackEnd::Stop,
    };
    let m = BranchingModel { tracks: vec![t], connections: conns, switch_conns: ConnectionSet::new() };
    assert_eq!(
        walk(&m, &cur(0, 0, Dir::Up), 8_000, 10),
        WalkResult::TrailingSwitch(5_000, cur(0, 4_990, Dir::Up), cur(0, 5_010, Dir::Up))
    );
    assert_eq!(
        walk(&m, &cur(0, 9_000, Dir::Down), 8_000, 10),
        WalkResult::FacingSwitch(4_000, cur(0, 5_010, Dir::Down), cur(0, 4_990, Dir::Down), cur(0, 9_000, Dir::Down))
    );
}

#[test]
fn nearer_switch_is_met_first_whatever_the_order() {
    let sw = |name: &str, pos: i64| BrObject {
        name: name.to_string(),
        pos,
        data: BrObjectData::Switch { dir: Dir::Down, side: Side::Right, conn: ("p".to_string(), "q".to_string()) },
    };
    let t = BrTrack {
        name: "t".to_string(),
        begin: BrTrackEnd::Stop,
        objs: vec![sw("far", 7_000), sw("near", 3_000)],
        length: 10_000,
        end: BrTrackEnd::Stop,
    };
    let mut conns = ConnectionMap::new();
    conns.insert(("p".to_string(), "q".to_string()), cur(0, 0, Dir::Up));
    let m = BranchingModel { tracks: vec![t], connections: conns, switch_conns: ConnectionSet::new() };
    assert_eq!(
        walk(&m, &cur(0, 0, Dir::Up), 9_000, 0),
        WalkResult::TrailingSwitch(3_000, cur(0, 3_000, Dir::Up), cur(0, 3_000, Dir::Up))
    );
    assert_eq!(
        walk(&m, &cur(0, 10_000, Dir::Down), 9_000, 0),
        WalkResult::FacingSwitch(3_000, cur(0, 7_000, Dir::Down), cur(0, 7_000, Dir::Down), cur(0, 0, Dir::Up))
    );
}

#[test]
fn objects_behind_the_cursor_are_passed_over() {
    let det = BrObject { name: "d".to_string(), pos: 36_000, data: BrObjectData::Detector };
    let t = BrTrack {
        name: "t".to_string(),
        begin: BrTrackEnd::Stop,
        objs: vec![det],
        length: 10_000,
        end: BrTrackEnd::Stop,
    };
    let m = BranchingModel { tracks: vec![t], connections: ConnectionMap::new(), switch_conns: ConnectionSet::new() };
    assert_eq!(walk(&m, &cur(0, 40_000, Dir::Up), -5_000, 100), WalkResult::End(30_000, cur(0, 9_900, Dir::Up)));
    assert_eq!(walk(&m, &cur(0, 30_000, Dir::Up), -5_000, 100), WalkResult::Arrived(cur(0, 25_000, Dir::Up)));
}
