use extremal::adjacency::AdjacencyMatrix;
use extremal::graph6::{Graph6Error, decode, encode, from_json, to_json, GraphJson};

#[test]
fn empty_graph_roundtrip() {
    let g = AdjacencyMatrix::new(0);
    let s = encode(&g);
    assert_eq!(s, "?");
    let decoded = decode(&s).unwrap();
    assert_eq!(decoded.n(), 0);
}

#[test]
fn single_vertex() {
    let g = AdjacencyMatrix::new(1);
    let s = encode(&g);
    assert_eq!(s, "@");
    let decoded = decode(&s).unwrap();
    assert_eq!(decoded.n(), 1);
    assert_eq!(decoded.num_edges(), 0);
}

#[test]
fn k5_complete_graph() {
    let mut g = AdjacencyMatrix::new(5);
    for i in 0..5u32 {
        for j in (i + 1)..5 {
            g.set_edge(i, j, true);
        }
    }
    let s = encode(&g);
    let decoded = decode(&s).unwrap();
    assert_eq!(decoded.n(), 5);
    assert_eq!(decoded.num_edges(), 10);
    for i in 0..5u32 {
        for j in (i + 1)..5 {
            assert!(decoded.edge(i, j));
        }
    }
}

#[test]
fn c5_cycle() {
    let mut g = AdjacencyMatrix::new(5);
    g.set_edge(0, 1, true);
    g.set_edge(1, 2, true);
    g.set_edge(2, 3, true);
    g.set_edge(3, 4, true);
    g.set_edge(0, 4, true);
    let s = encode(&g);
    let decoded = decode(&s).unwrap();
    assert_eq!(g, decoded);
}

#[test]
fn graph6_roundtrip_various_sizes() {
    for n in 0..=20u32 {
        let g = AdjacencyMatrix::new(n);
        let s = encode(&g);
        let decoded = decode(&s).unwrap();
        assert_eq!(g, decoded, "empty graph n={n}");
    }
}

#[test]
fn petersen_graph() {
    let mut g = AdjacencyMatrix::new(10);
    let outer = [(0, 1), (1, 2), (2, 3), (3, 4), (0, 4)];
    let inner = [(5, 7), (7, 9), (6, 9), (6, 8), (5, 8)];
    let spokes = [(0, 5), (1, 6), (2, 7), (3, 8), (4, 9)];
    for (i, j) in outer.iter().chain(inner.iter()).chain(spokes.iter()) {
        g.set_edge(*i, *j, true);
    }
    assert_eq!(g.num_edges(), 15);

    let s = encode(&g);
    let decoded = decode(&s).unwrap();
    assert_eq!(g, decoded);
}

#[test]
fn json_roundtrip() {
    let mut g = AdjacencyMatrix::new(5);
    g.set_edge(0, 2, true);
    g.set_edge(1, 3, true);
    let json = to_json(&g);
    assert_eq!(json.n, 5);
    let decoded = from_json(&json).unwrap();
    assert_eq!(g, decoded);
}

#[test]
fn invalid_chars_rejected() {
    assert!(decode("abc").is_err());
    assert!(decode("\x01").is_err());
}

#[test]
fn empty_string_rejected() {
    assert!(decode("").is_err());
}

#[test]
fn known_encodings() {
    // K2 is "A_" and the 5-cycle 0-1-2-3-4-0 is "Dhc"
    let mut k2 = AdjacencyMatrix::new(2);
    k2.set_edge(0, 1, true);
    assert_eq!(encode(&k2), "A_");
    let mut c5 = AdjacencyMatrix::new(5);
    for (i, j) in [(0u32, 1u32), (1, 2), (2, 3), (3, 4), (0, 4)] {
        c5.set_edge(i, j, true);
    }
    assert_eq!(encode(&c5), "Dhc");
}

#[test]
fn decode_error_variants() {
    assert!(matches!(decode(""), Err(Graph6Error::Empty)));
    assert!(matches!(decode("\x01"), Err(Graph6Error::InvalidChar(1))));
    assert!(matches!(decode("D"), Err(Graph6Error::TooShort { .. })));
    assert!(matches!(decode("A__"), Err(Graph6Error::ExtraBytes)));
    assert!(matches!(decode("~"), Err(Graph6Error::TooLarge(_))));
}

#[test]
fn json_with_wrong_vertex_count_rejected() {
    let json = GraphJson { n: 4, graph6: "Dhc".to_string() };
    assert!(from_json(&json).is_err());
}

#[test]
fn graph6_decode_invalid_inputs() {
    assert!(decode("").is_err());
    assert!(decode("?").is_ok());
    assert!(decode("\x00\x01\x02").is_err());
    assert!(decode("\x7F").is_err());
}
