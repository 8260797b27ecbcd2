use railml2dgraph::branching::{build_branching_model, get_branching_model, read_branching_model, BuildError, Warning};
use railml2dgraph::direction::{Dir, Side};
use railml2dgraph::model::{BrCursor, BrObjectData, BrTrackEnd};
use railml2dgraph::xml::Element;

const NS: &str = "http://www.railml.org/schemas/2013";

fn el(name: &str, attrs: &[(&str, &str)], children: Vec<Element>) -> Element {
    Element {
        name: name.to_string(),
        namespace: Some(NS.to_string()),
        attributes: attrs.iter().map(|(k, v)| (k.to_string(), v.to_string())).collect(),
        children,
    }
}

fn connection(id: &str, r: &str) -> Element {
    el("connection", &[("id", id), ("ref", r)], vec![])
}

fn open_end(id: &str) -> Element {
    el("openEnd", &[("id", id)], vec![])
}

fn track(name: &str, length: &str, begin: Element, end: Element, extra: Vec<Element>) -> Element {
    let mut topo = vec![
        el("trackBegin", &[("pos", "0")], vec![begin]),
        el("trackEnd", &[("pos", length)], vec![end]),
    ];
    let mut children = vec![];
    for e in extra {
        if e.name == "connections" {
            topo.push(e);
        } else {
            children.push(e);
        }
    }
    let mut all = vec![el("trackTopology", &[], topo)];
    all.extend(children);
    el("track", &[("name", name)], all)
}

fn document(tracks: Vec<Element>) -> Element {
    el("railML", &[], vec![el("infrastructure", &[], vec![el("tracks", &[], tracks)])])
}

fn sample() -> Element {
    let t1 = track(
        "T1",
        "100.5",
        open_end("b1"),
        connection("c1", "c2"),
        vec![
            el(
                "connections",
                &[],
                vec![el(
                    "switch",
                    &[("id", "sw1"), ("pos", "50")],
                    vec![el(
                        "connection",
                        &[("id", "s1"), ("ref", "s2"), ("orientation", "outgoing"), ("course", "left")],
                        vec![],
                    )],
                )],
            ),
            el(
                "ocsElements",
                &[],
                vec![
                    el(
                        "signals",
                        &[],
                        vec![
                            el("signal", &[("id", "sig1"), ("pos", "20"), ("dir", "up"), ("type", "main")], vec![]),
                            el("signal", &[("id", "sig2"), ("pos", "30"), ("dir", "down"), ("type", "distant")], vec![]),
                            el("signal", &[("id", "sig3"), ("pos", "40")], vec![]),
                            el("signal", &[("id", "sig4"), ("pos", "45"), ("dir", "down"), ("sight", "350.5")], vec![]),
                        ],
                    ),
                    el(
                        "trainDetectionElements",
                        &[],
                        vec![
                            el("trainDetector", &[("id", "d1"), ("pos", "10")], vec![]),
                            el("trackCircuitBorder", &[("id", "d2"), ("pos", "70")], vec![]),
                            el("somethingElse", &[("id", "x")], vec![]),
                        ],
                    ),
                ],
            ),
        ],
    );
    let t2 = track("T2", "200", connection("c2", "c1"), open_end("e2"), vec![]);
    let t3 = track("T3", "30", connection("s2", "s1"), open_end("e3"), vec![]);
    document(vec![t1, t2, t3])
}

fn key(a: &str, b: &str) -> (String, String) {
    (a.to_string(), b.to_string())
}

fn refusal(doc: &Element) -> String {
    match get_branching_model(doc, NS, &mut Vec::new()) {
        Ok(_) => panic!("expected a refusal"),
        Err(e) => e,
    }
}

fn malformation(doc: &Element) -> String {
    match build_branching_model(doc, NS) {
        Err(BuildError::Malformed(m)) => m,
        Err(BuildError::Refused(m)) => panic!("refused: {}", m),
        Err(BuildError::Unrepresentable(m)) => panic!("unrepresentable: {}", m),
        Ok(_) => panic!("expected a malformed document"),
    }
}

#[test]
fn reads_tracks_in_order() {
    let m = get_branching_model(&sample(), NS, &mut Vec::new()).unwrap();
    let names: Vec<&str> = m.tracks.iter().map(|t| t.name.as_str()).collect();
    assert_eq!(names, vec!["T1", "T2", "T3"]);
    assert_eq!(m.tracks[0].length, 100_500);
    assert_eq!(m.tracks[1].length, 200_000);
    assert_eq!(m.tracks[2].length, 30_000);
}

#[test]
fn reads_track_ends() {
    let m = get_branching_model(&sample(), NS, &mut Vec::new()).unwrap();
    assert!(matches!(&m.tracks[0].begin, BrTrackEnd::Boundary(b) if b == "b1"));
    assert!(matches!(&m.tracks[0].end, BrTrackEnd::Connection((i, r)) if i == "c1" && r == "c2"));
    assert!(matches!(&m.tracks[1].begin, BrTrackEnd::Connection((i, r)) if i == "c2" && r == "c1"));
    assert!(matches!(&m.tracks[1].end, BrTrackEnd::Boundary(b) if b == "e2"));
}

#[test]
fn connections_are_keyed_by_ref_then_id() {
    let m = get_branching_model(&sample(), NS, &mut Vec::new()).unwrap();
    assert_eq!(m.connections.get(&key("c2", "c1")), Some(BrCursor { track: 0, offset: 100_500, dir: Dir::Down }));
    assert_eq!(m.connections.get(&key("c1", "c2")), Some(BrCursor { track: 1, offset: 0, dir: Dir::Up }));
    assert_eq!(m.connections.get(&key("s2", "s1")), Some(BrCursor { track: 0, offset: 50_000, dir: Dir::Down }));
    assert_eq!(m.connections.get(&key("s1", "s2")), Some(BrCursor { track: 2, offset: 0, dir: Dir::Up }));
    assert_eq!(m.connections.get(&key("b1", "b1")), None);
}

#[test]
fn switch_connections_in_both_orders() {
    let m = get_branching_model(&sample(), NS, &mut Vec::new()).unwrap();
    assert!(m.switch_conns.contains(&key("s1", "s2")));
    assert!(m.switch_conns.contains(&key("s2", "s1")));
    assert!(!m.switch_conns.contains(&key("c1", "c2")));
}

#[test]
fn objects_signals_then_detectors_then_switches() {
    let m = get_branching_model(&sample(), NS, &mut Vec::new()).unwrap();
    let objs = &m.tracks[0].objs;
    let names: Vec<&str> = objs.iter().map(|o| o.name.as_str()).collect();
    assert_eq!(names, vec!["sig1", "sig4", "d1", "d2", "sw1"]);
    assert!(matches!(objs[0].data, BrObjectData::Signal { dir: Dir::Up, sight: 200_000 }));
    assert_eq!(objs[0].pos, 20_000);
    assert!(matches!(objs[1].data, BrObjectData::Signal { dir: Dir::Down, sight: 350_500 }));
    assert!(matches!(objs[2].data, BrObjectData::Detector));
    assert_eq!(objs[3].pos, 70_000);
    match &objs[4].data {
        BrObjectData::Switch { dir, side, conn } => {
            assert_eq!(*dir, Dir::Up);
            assert_eq!(*side, Side::Left);
            assert_eq!(conn, &key("s1", "s2"));
        }
        _ => panic!("expected a switch"),
    }
    assert!(m.tracks[1].objs.is_empty());
}

#[test]
fn infrastructure_may_be_the_root_and_names_in_any_case() {
    let doc = el("Infrastructure", &[], vec![el("TRACKS", &[], vec![track("A", "1", open_end("x"), open_end("y"), vec![])])]);
    let m = get_branching_model(&doc, NS, &mut Vec::new()).unwrap();
    assert_eq!(m.tracks.len(), 1);
    assert!(matches!(&m.tracks[0].end, BrTrackEnd::Boundary(b) if b == "y"));
}

#[test]
fn other_children_of_tracks_are_skipped() {
    let doc = document(vec![el("note", &[], vec![]), track("A", "1", el("x", &[], vec![]), open_end("y"), vec![])]);
    let m = get_branching_model(&doc, NS, &mut Vec::new()).unwrap();
    assert_eq!(m.tracks.len(), 1);
    assert!(matches!(m.tracks[0].begin, BrTrackEnd::Stop));
}

#[test]
fn refuses_without_infrastructure() {
    assert_eq!(refusal(&el("foo", &[], vec![])), "No infrastructure element found");
    assert_eq!(refusal(&el("railml", &[], vec![el("tracks", &[], vec![])])), "No infrastructure element found");
}

#[test]
fn refuses_without_tracks() {
    assert_eq!(refusal(&el("railML", &[], vec![el("infrastructure", &[], vec![])])), "No tracks found in the infrastructure");
}

#[test]
fn refuses_track_without_name() {
    let doc = document(vec![el("track", &[], vec![])]);
    assert_eq!(refusal(&doc), "No name for track");
}

#[test]
fn refuses_track_without_topology() {
    let doc = document(vec![el("track", &[("name", "T\"1")], vec![])]);
    assert_eq!(refusal(&doc), "No trackTopology element in track \"T\\\"1\"");
}

#[test]
fn refuses_track_without_end() {
    let doc = document(vec![el("track", &[("name", "T1")], vec![el("trackTopology", &[], vec![])])]);
    assert_eq!(refusal(&doc), "No trackEnd element on track \"T1\"");
}

#[test]
fn refuses_track_end_without_pos() {
    let doc = document(vec![el(
        "track",
        &[("name", "T1")],
        vec![el("trackTopology", &[], vec![el("trackEnd", &[], vec![])])],
    )]);
    assert_eq!(refusal(&doc), "No pos attribute on trackEnd on track \"T1\"");
}

#[test]
fn refuses_unreadable_track_length() {
    let doc = document(vec![track("T1", "long", open_end("a"), open_end("b"), vec![])]);
    assert_eq!(refusal(&doc), "ParseFloatError { kind: Invalid }");
    let doc = document(vec![track("T1", "", open_end("a"), open_end("b"), vec![])]);
    assert_eq!(refusal(&doc), "ParseFloatError { kind: Empty }");
}

#[test]
fn refuses_track_without_begin() {
    let doc = document(vec![el(
        "track",
        &[("name", "T1")],
        vec![el("trackTopology", &[], vec![el("trackEnd", &[("pos", "5")], vec![])])],
    )]);
    assert_eq!(refusal(&doc), "No trackBegin found on track \"T1\".");
}

#[test]
fn namespace_must_match() {
    let m = get_branching_model(&sample(), "urn:other", &mut Vec::new());
    assert_eq!(m.err(), Some("No trackTopology element in track \"T1\"".to_string()));
}

#[test]
fn malformed_connections() {
    let doc = document(vec![track("T1", "1", el("connection", &[("ref", "r")], vec![]), open_end("b"), vec![])]);
    assert_eq!(malformation(&doc), "Connection has no id.");
    let doc = document(vec![track("T1", "1", el("connection", &[("id", "i")], vec![]), open_end("b"), vec![])]);
    assert_eq!(malformation(&doc), "Connection has no ref.");
    let doc = document(vec![track("T1", "1", el("openEnd", &[], vec![]), open_end("b"), vec![])]);
    assert_eq!(malformation(&doc), "openEnd has no id.");
}

fn with_signal(attrs: &[(&str, &str)]) -> Element {
    document(vec![track(
        "T1",
        "100",
        open_end("a"),
        open_end("b"),
        vec![el("ocsElements", &[], vec![el("signals", &[], vec![el("signal", attrs, vec![])])])],
    )])
}

#[test]
fn malformed_signals() {
    assert_eq!(malformation(&with_signal(&[("pos", "1")])), "signal id missing");
    assert_eq!(malformation(&with_signal(&[("id", "s")])), "signal pos missing");
    assert_eq!(malformation(&with_signal(&[("id", "s"), ("pos", "x")])), "signal pos is not a valid number");
    assert_eq!(
        malformation(&with_signal(&[("id", "s"), ("pos", "1"), ("sight", "far")])),
        "signal sight is not a valid number"
    );
    // a bad position is found even on a signal without a direction
    assert_eq!(malformation(&with_signal(&[("id", "s"), ("pos", "?")])), "signal pos is not a valid number");
}

#[test]
fn malformed_detectors() {
    let doc = |attrs: &[(&str, &str)]| {
        document(vec![track(
            "T1",
            "100",
            open_end("a"),
            open_end("b"),
            vec![el("ocsElements", &[], vec![el("trainDetectionElements", &[], vec![el("trainDetector", attrs, vec![])])])],
        )])
    };
    assert_eq!(malformation(&doc(&[("pos", "1")])), "detector id missing");
    assert_eq!(malformation(&doc(&[("id", "d")])), "detector pos missing");
    assert_eq!(malformation(&doc(&[("id", "d"), ("pos", "")])), "detector pos is not a valid number");
}

fn with_switch(attrs: &[(&str, &str)], conns: Vec<Element>) -> Element {
    document(vec![track(
        "T1",
        "100",
        open_end("a"),
        open_end("b"),
        vec![el("connections", &[], vec![el("switch", attrs, conns)])],
    )])
}

fn switch_conn(attrs: &[(&str, &str)]) -> Element {
    el("connection", attrs, vec![])
}

#[test]
fn malformed_switches() {
    let good = [("id", "c"), ("ref", "d"), ("orientation", "incoming"), ("course", "right")];
    assert_eq!(malformation(&with_switch(&[("pos", "1")], vec![switch_conn(&good)])), "switch id missing");
    assert_eq!(malformation(&with_switch(&[("id", "w")], vec![switch_conn(&good)])), "switch pos missing");
    assert_eq!(
        malformation(&with_switch(&[("id", "w"), ("pos", "1m")], vec![switch_conn(&good)])),
        "switch pos is not a valid number"
    );
    assert_eq!(malformation(&with_switch(&[("id", "w"), ("pos", "1")], vec![])), "No connection in switch \"w\"");
    assert_eq!(
        malformation(&with_switch(&[("id", "w"), ("pos", "1")], vec![switch_conn(&good), switch_conn(&good)])),
        "Multiple connections in switch \"w\""
    );
    assert_eq!(
        malformation(&with_switch(&[("id", "w"), ("pos", "1")], vec![switch_conn(&[("id", "c"), ("ref", "d"), ("course", "left")])])),
        "Switch orientation"
    );
    assert_eq!(
        malformation(&with_switch(&[("id", "w"), ("pos", "1")], vec![switch_conn(&[("id", "c"), ("ref", "d"), ("orientation", "outgoing")])])),
        "Switch course"
    );
    assert_eq!(
        malformation(&with_switch(&[("id", "w"), ("pos", "1")], vec![switch_conn(&[("id", "c"), ("orientation", "outgoing"), ("course", "left")])])),
        "Switch connection ids missing"
    );
}

#[test]
fn incoming_switch_faces_down_and_its_branch_leads_up() {
    let doc = with_switch(
        &[("id", "w"), ("pos", "12.5")],
        vec![switch_conn(&[("id", "c"), ("ref", "d"), ("orientation", "incoming"), ("course", "right")])],
    );
    let m = get_branching_model(&doc, NS, &mut Vec::new()).unwrap();
    assert_eq!(m.connections.get(&key("d", "c")), Some(BrCursor { track: 0, offset: 12_500, dir: Dir::Up }));
    assert!(matches!(&m.tracks[0].objs[0].data, BrObjectData::Switch { dir: Dir::Down, side: Side::Right, .. }));
}

#[test]
fn refusal_in_a_later_track_comes_after_earlier_tracks() {
    let doc = document(vec![track("A", "1", open_end("x"), open_end("y"), vec![]), el("track", &[], vec![])]);
    assert_eq!(refusal(&doc), "No name for track");
}

fn warning_names(w: &[Warning]) -> Vec<String> {
    w.iter()
        .map(|x| match x {
            Warning::NoSight(id) => format!("no sight {}", id),
            Warning::DirectionalDetector(id) => format!("directional {}", id),
        })
        .collect()
}

#[test]
fn warns_of_signals_without_sight() {
    let mut w = Vec::new();
    get_branching_model(&sample(), NS, &mut w).unwrap();
    assert_eq!(warning_names(&w), vec!["no sight sig1", "no sight sig2", "no sight sig3"]);
}

#[test]
fn warns_of_directional_detectors_after_signals() {
    let doc = document(vec![track(
        "T1",
        "100",
        open_end("a"),
        open_end("b"),
        vec![el(
            "ocsElements",
            &[],
            vec![
                el("trainDetectionElements", &[], vec![
                    el("trainDetector", &[("id", "d1"), ("pos", "1"), ("dir", "up")], vec![]),
                    el("trackCircuitBorder", &[("id", "d2"), ("pos", "2"), ("dir", "both")], vec![]),
                    el("trackCircuitBorder", &[("id", "d3"), ("pos", "3"), ("dir", "down")], vec![]),
                ]),
                el("signals", &[], vec![el("signal", &[("id", "s"), ("pos", "4"), ("dir", "up")], vec![])]),
            ],
        )],
    )]);
    let mut w = Vec::new();
    let m = get_branching_model(&doc, NS, &mut w).unwrap();
    assert_eq!(m.tracks[0].objs.len(), 4);
    assert_eq!(warning_names(&w), vec!["no sight s", "directional d1", "directional d3"]);
}

#[test]
fn no_warnings_from_tracks_after_a_refusal() {
    let doc = document(vec![
        track(
            "A",
            "1",
            open_end("x"),
            open_end("y"),
            vec![el("ocsElements", &[], vec![el("signals", &[], vec![el("signal", &[("id", "s1"), ("pos", "0.5")], vec![])])])],
        ),
        el("track", &[], vec![]),
        track(
            "C",
            "1",
            open_end("x"),
            open_end("y"),
            vec![el("ocsElements", &[], vec![el("signals", &[], vec![el("signal", &[("id", "s3"), ("pos", "0.5")], vec![])])])],
        ),
    ]);
    let mut w = Vec::new();
    assert_eq!(get_branching_model(&doc, NS, &mut w).err(), Some("No name for track".to_string()));
    assert_eq!(warning_names(&w), vec!["no sight s1"]);
}

#[test]
fn positions_in_exponent_form() {
    let doc = with_signal(&[("id", "s"), ("pos", "2.5e1"), ("dir", "up"), ("sight", "1E3")]);
    let m = get_branching_model(&doc, NS, &mut Vec::new()).unwrap();
    assert_eq!(m.tracks[0].objs[0].pos, 25_000);
    assert!(matches!(m.tracks[0].objs[0].data, BrObjectData::Signal { sight: 1_000_000, .. }));
    let doc = document(vec![track("T1", "1e2", open_end("a"), open_end("b"), vec![])]);
    assert_eq!(get_branching_model(&doc, NS, &mut Vec::new()).unwrap().tracks[0].length, 100_000);
}

#[test]
fn read_branching_model_tells_failures_apart() {
    let mut w = Vec::new();
    assert!(read_branching_model(&sample(), NS, &mut w).is_ok());
    assert_eq!(w.len(), 3);
    let mut w = Vec::new();
    match read_branching_model(&el("foo", &[], vec![]), NS, &mut w) {
        Err(BuildError::Refused(m)) => assert_eq!(m, "No infrastructure element found"),
        _ => panic!("expected a refusal"),
    }
    let mut w = Vec::new();
    match read_branching_model(&with_signal(&[("pos", "1")]), NS, &mut w) {
        Err(BuildError::Malformed(m)) => assert_eq!(m, "signal id missing"),
        _ => panic!("expected a malformed document"),
    }
    assert!(w.is_empty());
    match read_branching_model(&with_signal(&[("id", "s"), ("pos", "inf")]), NS, &mut w) {
        Err(BuildError::Unrepresentable(m)) => assert_eq!(m, "signal pos is not representable"),
        _ => panic!("expected an unrepresentable length"),
    }
    let doc = document(vec![track("T1", "NaN", open_end("a"), open_end("b"), vec![])]);
    match read_branching_model(&doc, NS, &mut w) {
        Err(BuildError::Unrepresentable(m)) => assert_eq!(m, "trackEnd pos is not representable on track \"T1\""),
        _ => panic!("expected an unrepresentable length"),
    }
}
