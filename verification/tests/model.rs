use railml2dgraph::direction::{Dir, Side};
use railml2dgraph::model::{BrCursor, ConnectionMap, ConnectionSet};
use railml2dgraph::problem::{Config, TrainOrd};

fn key(a: &str, b: &str) -> (String, String) {
    (a.to_string(), b.to_string())
}

#[test]
fn opposite_direction_twice_is_the_same() {
    assert_eq!(Dir::Up.opposite(), Dir::Down);
    assert_eq!(Dir::Down.opposite(), Dir::Up);
    assert_eq!(Dir::Up.opposite().opposite(), Dir::Up);
    assert_ne!(Side::Left, Side::Right);
}

#[test]
fn connection_map_reads_back_what_was_written() {
    let mut m = ConnectionMap::new();
    let c1 = BrCursor { track: 0, offset: 10, dir: Dir::Up };
    let c2 = BrCursor { track: 1, offset: 20, dir: Dir::Down };
    assert_eq!(m.get(&key("a", "b")), None);
    m.insert(key("a", "b"), c1);
    m.insert(key("b", "a"), c2);
    assert_eq!(m.get(&key("a", "b")), Some(c1));
    assert_eq!(m.get(&key("b", "a")), Some(c2));
    m.insert(key("a", "b"), c2);
    assert_eq!(m.get(&key("a", "b")), Some(c2));
    assert!(m.contains_key(&key("b", "a")));
    assert!(!m.contains_key(&key("a", "a")));
}

#[test]
fn connection_set_holds_what_was_added() {
    let mut s = ConnectionSet::new();
    assert!(!s.contains(&key("x", "y")));
    s.insert(key("x", "y"));
    assert!(s.contains(&key("x", "y")));
    assert!(!s.contains(&key("y", "x")));
    s.insert(key("x", "y"));
    assert!(s.contains(&key("x", "y")));
}

#[test]
fn plan_types_hold_their_values() {
    let c = Config { n_before: 2, n_after: 3 };
    assert_eq!((c.n_before, c.n_after), (2, 3));
    let o = TrainOrd { a: (1, 0), b: (2, 5) };
    assert_eq!(o.a, (1, 0));
    assert_eq!(o.b, (2, 5));
}
