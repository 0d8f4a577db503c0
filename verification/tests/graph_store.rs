use maze_paths::error::Error;
use maze_paths::graph::Graph;
use maze_paths::import::insert_edge_record;
use maze_paths::import::parse_a_line;
use maze_paths::import::parse_exits_line_and_insert;
use maze_paths::import::split_edge_line;

fn s(text: &str) -> String {
    String::from(text)
}

#[test]
fn new_vert_is_idempotent() {
    let mut g = Graph::new();
    assert!(!g.new_vert(&s("a"), true));
    assert!(g.new_vert(&s("a"), false));
    // the first definition's exit flag survives the second call
    let v = g.get(&s("a")).unwrap();
    assert!(v.is_exit);
    assert_eq!(g.verts.len(), 1);
}

#[test]
fn get_unknown_id_is_none() {
    let mut g = Graph::new();
    g.new_vert(&s("a"), false);
    assert!(g.get(&s("b")).is_none());
    assert!(g.get(&s("a")).is_some());
}

#[test]
fn self_edge_is_rejected() {
    let mut g = Graph::new();
    g.new_vert(&s("a"), false);
    assert!(matches!(g.new_edge(&s("a"), &s("a"), 7), Err(Error::SelfEdge)));
    // even when the id is not in the store at all
    assert!(matches!(g.new_edge(&s("x"), &s("x"), 7), Err(Error::SelfEdge)));
    let v = g.get(&s("a")).unwrap();
    assert_eq!(v.edges.len(), 0);
}

#[test]
fn missing_endpoint_is_rejected() {
    let mut g = Graph::new();
    g.new_vert(&s("a"), false);
    assert!(matches!(g.new_edge(&s("a"), &s("b"), 7), Err(Error::NoVertex)));
    assert!(matches!(g.new_edge(&s("b"), &s("a"), 7), Err(Error::NoVertex)));
    assert_eq!(g.get(&s("a")).unwrap().edges.len(), 0);
}

#[test]
fn duplicate_edge_keeps_first_distance() {
    let d = (1.5f64).to_bits();
    let d2 = (9.25f64).to_bits();
    let mut g = Graph::new();
    g.new_vert(&s("a"), false);
    g.new_vert(&s("b"), false);
    assert!(g.new_edge(&s("a"), &s("b"), d).is_ok());
    assert!(matches!(g.new_edge(&s("a"), &s("b"), d2), Err(Error::DuplicateEdge)));
    // the reverse direction of the same connection is a duplicate too
    assert!(matches!(g.new_edge(&s("b"), &s("a"), d2), Err(Error::DuplicateEdge)));
    let a = g.get(&s("a")).unwrap();
    assert_eq!(a.edges.len(), 1);
    assert_eq!(a.edges[0].dist, d);
    let b = g.get(&s("b")).unwrap();
    assert_eq!(b.edges.len(), 1);
    assert_eq!(b.edges[0].dist, d);
}

#[test]
fn edges_are_bidirectional() {
    let d = (0.5f64).to_bits();
    let mut g = Graph::new();
    g.new_vert(&s("a"), false);
    g.new_vert(&s("b"), true);
    g.new_edge(&s("a"), &s("b"), d).unwrap();
    let a = g.get(&s("a")).unwrap();
    let b = g.get(&s("b")).unwrap();
    assert_eq!(a.edges.len(), 1);
    assert_eq!(b.edges.len(), 1);
    assert_eq!(g.verts[a.edges[0].to].id, "b");
    assert_eq!(g.verts[b.edges[0].to].id, "a");
    assert_eq!(a.edges[0].dist, d);
    assert_eq!(b.edges[0].dist, d);
}

#[test]
fn parse_a_line_splits_quoted_words() {
    let words = parse_a_line(&s("\"A\" \"B\" \"1.5\""), 3).unwrap();
    assert_eq!(words, vec![s("A"), s("B"), s("1.5")]);
}

#[test]
fn parse_a_line_ignores_text_outside_quotes() {
    let words = parse_a_line(&s("  \"A\"junk\"B\"  trailing"), 1).unwrap();
    assert_eq!(words, vec![s("A"), s("B")]);
}

#[test]
fn parse_a_line_empty_line_has_no_words() {
    let words = parse_a_line(&s(""), 1).unwrap();
    assert!(words.is_empty());
}

#[test]
fn parse_a_line_keeps_escaped_quote() {
    let words = parse_a_line(&s("\"a\\\"b\""), 1).unwrap();
    assert_eq!(words, vec![s("a\"b")]);
}

#[test]
fn parse_a_line_reports_unmatched_quote() {
    match parse_a_line(&s("\"A\" \"B"), 4) {
        Err(Error::FileWrong(line, reason)) => {
            assert_eq!(line, 4);
            assert_eq!(reason, "Quotation marks not match");
        },
        other => panic!("expected a FileWrong error, got {other:?}"),
    }
}

#[test]
fn split_edge_line_takes_exactly_three_words() {
    let (a, b, d) = split_edge_line(&s("\"A\" \"B\" \"1.5\""), 2).unwrap();
    assert_eq!((a, b, d), (s("A"), s("B"), s("1.5")));
    match split_edge_line(&s("\"A\" \"B\" \"1.5\" \"extra\""), 2) {
        Err(Error::FileWrong(line, reason)) => {
            assert_eq!(line, 2);
            assert_eq!(reason, "Too many words");
        },
        other => panic!("expected a FileWrong error, got {other:?}"),
    }
    match split_edge_line(&s("\"A\" \"B\""), 5) {
        Err(Error::FileWrong(line, reason)) => {
            assert_eq!(line, 5);
            assert_eq!(reason, "Too few words");
        },
        other => panic!("expected a FileWrong error, got {other:?}"),
    }
}

#[test]
fn edge_record_inserts_vertices_and_connection() {
    let mut g = Graph::new();
    insert_edge_record(&mut g, &s("A"), &s("B"), 42, 2).unwrap();
    assert!(!g.get(&s("A")).unwrap().is_exit);
    assert!(!g.get(&s("B")).unwrap().is_exit);
    assert_eq!(g.get(&s("A")).unwrap().edges.len(), 1);
    assert_eq!(g.get(&s("B")).unwrap().edges.len(), 1);
}

#[test]
fn edge_record_reports_rejected_connections_with_line() {
    let mut g = Graph::new();
    match insert_edge_record(&mut g, &s("A"), &s("A"), 42, 3) {
        Err(Error::FileWrong(line, reason)) => {
            assert_eq!(line, 3);
            assert_eq!(reason, "Edge pointing to itself");
        },
        other => panic!("expected a FileWrong error, got {other:?}"),
    }
    // the vertex part of the record still took effect
    assert!(g.get(&s("A")).is_some());
    insert_edge_record(&mut g, &s("A"), &s("B"), 42, 4).unwrap();
    match insert_edge_record(&mut g, &s("B"), &s("A"), 7, 5) {
        Err(Error::FileWrong(line, reason)) => {
            assert_eq!(line, 5);
            assert_eq!(reason, "Two edge have the same start and end");
        },
        other => panic!("expected a FileWrong error, got {other:?}"),
    }
    assert_eq!(g.get(&s("A")).unwrap().edges[0].dist, 42);
}

#[test]
fn exits_line_inserts_exit_vertices() {
    let mut g = Graph::new();
    parse_exits_line_and_insert(&mut g, &s("\"C\" \"F\"")).unwrap();
    assert!(g.get(&s("C")).unwrap().is_exit);
    assert!(g.get(&s("F")).unwrap().is_exit);
    assert_eq!(g.verts.len(), 2);
}

#[test]
fn exits_line_with_open_quote_is_line_one_error() {
    let mut g = Graph::new();
    match parse_exits_line_and_insert(&mut g, &s("\"C\" \"F")) {
        Err(Error::FileWrong(line, _)) => assert_eq!(line, 1),
        other => panic!("expected a FileWrong error, got {other:?}"),
    }
    assert_eq!(g.verts.len(), 0);
}
