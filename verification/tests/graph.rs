use bvgraph::bits::BitOrder;
use bvgraph::bvcodec::CompFlags;
use bvgraph::bvgraph::{BVGraphSequential, DegreesIter};
use bvgraph::codes::int2nat;
use bvgraph::encoder::encode_graph;
use bvgraph::writer::BitStreamWrite;
use bvgraph::Error;

/// Encode one node the simplest way: no reference, no intervals, all
/// successors as residuals; all elements gamma-coded.
fn encode_node_residuals(w: &mut BitStreamWrite, v: u64, succ: &[u64], window: bool, lmin: bool) {
    w.write_gamma(succ.len() as u64);
    if succ.is_empty() {
        return;
    }
    if window {
        w.write_gamma(0); // no reference
    }
    if lmin {
        w.write_gamma(0); // no intervals
    }
    w.write_gamma(int2nat(succ[0] as i64 - v as i64));
    for i in 1..succ.len() {
        w.write_gamma(succ[i] - succ[i - 1] - 1);
    }
}

fn scan_all(g: &BVGraphSequential) -> Vec<Vec<usize>> {
    let mut it = g.iter();
    let mut all = Vec::new();
    for _ in 0..g.num_nodes() {
        all.push(it.next_successors().unwrap());
    }
    all
}

/// The six-arc example graph: arcs (0,1) (0,2) (1,2) (1,3) (2,4) (3,4),
/// five nodes, window 3, minimum interval length 2, everything gamma.
fn example_graph() -> BVGraphSequential {
    let mut w = BitStreamWrite::new(BitOrder::M2L);
    encode_node_residuals(&mut w, 0, &[1, 2], true, true);
    encode_node_residuals(&mut w, 1, &[2, 3], true, true);
    encode_node_residuals(&mut w, 2, &[4], true, true);
    encode_node_residuals(&mut w, 3, &[4], true, true);
    encode_node_residuals(&mut w, 4, &[], true, true);
    BVGraphSequential::new(w.into_words(), BitOrder::M2L, CompFlags::all_gamma(), 3, 2, 5, Some(6))
}

#[test]
fn example_scan_yields_all_arcs_in_order() {
    let g = example_graph();
    let all = scan_all(&g);
    assert_eq!(all, vec![vec![1, 2], vec![2, 3], vec![4], vec![4], vec![]]);
    // flattening gives the arcs source-major, destination-ascending
    let mut arcs = Vec::new();
    for (v, succ) in all.iter().enumerate() {
        for &d in succ {
            arcs.push((v, d));
        }
    }
    assert_eq!(arcs, vec![(0, 1), (0, 2), (1, 2), (1, 3), (2, 4), (3, 4)]);
}

#[test]
fn example_random_access_matches_scan() {
    let g = example_graph();
    let offs = g.build_offsets().unwrap();
    let all = scan_all(&g);
    for v in 0..g.num_nodes() {
        assert_eq!(g.successors(v, &offs, 8).unwrap(), all[v], "node {}", v);
    }
    assert_eq!(g.successors(1, &offs, 8).unwrap(), vec![2, 3]);
    assert_eq!(g.successors(4, &offs, 8).unwrap(), Vec::<usize>::new());
}

#[test]
fn example_arc_count_matches_degree_sum() {
    let g = example_graph();
    let mut deg = DegreesIter::new(g.iter());
    let mut total = 0usize;
    for _ in 0..g.num_nodes() {
        total += deg.next_degree().unwrap();
    }
    assert_eq!(Some(total), g.num_arcs_hint());
}

#[test]
fn degrees_iterator_matches_full_decoding() {
    let g = example_graph();
    let all = scan_all(&g);
    let mut deg = g.iter_degrees();
    for v in 0..g.num_nodes() {
        assert_eq!(deg.next_degree().unwrap(), all[v].len(), "node {}", v);
    }
}

#[test]
fn single_node_graph() {
    let mut w = BitStreamWrite::new(BitOrder::M2L);
    encode_node_residuals(&mut w, 0, &[], true, true);
    let g = BVGraphSequential::new(
        w.into_words(),
        BitOrder::M2L,
        CompFlags::all_gamma(),
        3,
        2,
        1,
        None,
    );
    let all = scan_all(&g);
    assert_eq!(all, vec![Vec::<usize>::new()]);
    let offs = g.build_offsets().unwrap();
    assert_eq!(g.successors(0, &offs, 4).unwrap(), Vec::<usize>::new());
    assert!(g.num_arcs_hint().is_none() || g.num_arcs_hint() == Some(0));
}

#[test]
fn reference_chain_depth_four() {
    // node 0 carries [1]; each of nodes 1..4 copies the whole list of the
    // previous node through a reference.
    let mut w = BitStreamWrite::new(BitOrder::M2L);
    encode_node_residuals(&mut w, 0, &[1], true, true);
    for _ in 1..5 {
        w.write_gamma(1); // degree
        w.write_gamma(1); // reference offset: previous node
        w.write_gamma(0); // block count 0: copy everything
    }
    let g = BVGraphSequential::new(
        w.into_words(),
        BitOrder::M2L,
        CompFlags::all_gamma(),
        4,
        2,
        5,
        Some(5),
    );
    let all = scan_all(&g);
    for v in 0..5 {
        assert_eq!(all[v], vec![1], "node {}", v);
    }
    let offs = g.build_offsets().unwrap();
    // recursive random access resolves the whole chain with no window
    assert_eq!(g.successors(4, &offs, 4).unwrap(), vec![1]);
    // a depth too small for the chain is reported
    assert!(g.successors(4, &offs, 0).is_err());
}

#[test]
fn interval_dominated_node() {
    // node 100 carries [200..230) and [300..305); minimum interval length 4
    // turns both into intervals, leaving no residuals.
    let n = 400usize;
    let lmin = 4u64;
    let mut w = BitStreamWrite::new(BitOrder::M2L);
    for _ in 0..100 {
        w.write_gamma(0);
    }
    w.write_gamma(35); // degree: 30 + 5
    w.write_gamma(0); // no reference
    w.write_gamma(2); // two intervals
    w.write_gamma(int2nat(200 - 100)); // first start, anchored at the node
    w.write_gamma(30 - lmin); // first length above the minimum
    w.write_gamma(300 - 230 - 1); // gap to the second start
    w.write_gamma(5 - lmin); // second length above the minimum
    for _ in 101..n {
        w.write_gamma(0);
    }
    let g = BVGraphSequential::new(
        w.into_words(),
        BitOrder::M2L,
        CompFlags::all_gamma(),
        3,
        lmin as usize,
        n,
        None,
    );
    let all = scan_all(&g);
    let mut expected: Vec<usize> = (200..230).collect();
    expected.extend(300..305);
    assert_eq!(all[100], expected);
    let offs = g.build_offsets().unwrap();
    assert_eq!(g.successors(100, &offs, 4).unwrap(), expected);
}

#[test]
fn residual_dominated_node() {
    // node 100 carries [5, 17, 42, 1000]; a minimum interval length of 5
    // forces everything through the residual path; the first residual is
    // the signed offset 5 - 100 = -95.
    let n = 1001usize;
    let mut w = BitStreamWrite::new(BitOrder::M2L);
    for _ in 0..100 {
        w.write_gamma(0);
    }
    w.write_gamma(4); // degree
    w.write_gamma(0); // no reference
    w.write_gamma(0); // no intervals
    assert_eq!(int2nat(5 - 100), 189);
    w.write_gamma(int2nat(5 - 100)); // first residual
    w.write_gamma(17 - 5 - 1);
    w.write_gamma(42 - 17 - 1);
    w.write_gamma(1000 - 42 - 1);
    for _ in 101..n {
        w.write_gamma(0);
    }
    let g = BVGraphSequential::new(
        w.into_words(),
        BitOrder::M2L,
        CompFlags::all_gamma(),
        3,
        5,
        n,
        None,
    );
    let all = scan_all(&g);
    assert_eq!(all[100], vec![5, 17, 42, 1000]);
}

#[test]
fn duplicate_successor_is_corrupt() {
    // node 1 copies node 0's list [1] and adds the residual 1 again: the
    // merged list has a duplicate, which the decoder rejects.
    let mut w = BitStreamWrite::new(BitOrder::M2L);
    encode_node_residuals(&mut w, 0, &[1], true, true);
    w.write_gamma(2); // degree
    w.write_gamma(1); // reference previous
    w.write_gamma(0); // copy everything
    w.write_gamma(0); // no intervals
    w.write_gamma(int2nat(1 - 1)); // first residual: 1 again
    let g = BVGraphSequential::new(
        w.into_words(),
        BitOrder::M2L,
        CompFlags::all_gamma(),
        3,
        2,
        2,
        None,
    );
    let mut it = g.iter();
    assert_eq!(it.next_successors().unwrap(), vec![1]);
    assert_eq!(it.next_successors(), Err(Error::CorruptStream));
}

#[test]
fn reference_offset_beyond_window_is_corrupt() {
    let mut w = BitStreamWrite::new(BitOrder::M2L);
    encode_node_residuals(&mut w, 0, &[1], true, true);
    w.write_gamma(1); // degree of node 1
    w.write_gamma(5); // reference offset beyond both the node and the window
    let g = BVGraphSequential::new(
        w.into_words(),
        BitOrder::M2L,
        CompFlags::all_gamma(),
        3,
        2,
        2,
        None,
    );
    let mut it = g.iter();
    it.next_successors().unwrap();
    assert_eq!(it.next_successors(), Err(Error::CorruptStream));
}

#[test]
fn truncated_stream_is_eof() {
    // a degree claims successors but the stream ends: only zero padding
    // follows, so the unary part of the next code never terminates.
    let mut w = BitStreamWrite::new(BitOrder::M2L);
    w.write_gamma(3);
    let g = BVGraphSequential::new(
        w.into_words(),
        BitOrder::M2L,
        CompFlags::all_gamma(),
        0,
        0,
        4,
        None,
    );
    let mut it = g.iter();
    assert_eq!(it.next_successors(), Err(Error::UnexpectedEof));
}

#[test]
fn default_flags_graph_roundtrip() {
    // the customary code choice: zeta-3 residuals.
    let mut w = BitStreamWrite::new(BitOrder::M2L);
    w.write_gamma(2); // degree of node 0
    w.write_unary(0); // reference offset code is unary in the default table
    w.write_gamma(0); // no intervals
    w.write_zeta(int2nat(3 - 0), 3); // first residual: 3
    w.write_zeta(9 - 3 - 1, 3); // then 9
    w.write_gamma(0); // node 1
    w.write_gamma(0); // node 2
    w.write_gamma(0); // node 3
    w.write_gamma(0); // node 4
    w.write_gamma(0); // node 5
    w.write_gamma(0); // node 6
    w.write_gamma(0); // node 7
    w.write_gamma(0); // node 8
    w.write_gamma(0); // node 9
    let g = BVGraphSequential::new(
        w.into_words(),
        BitOrder::M2L,
        CompFlags::default_flags(),
        7,
        4,
        10,
        Some(2),
    );
    let all = scan_all(&g);
    assert_eq!(all[0], vec![3, 9]);
    for v in 1..10 {
        assert_eq!(all[v], Vec::<usize>::new());
    }
}

#[test]
fn encode_then_decode_is_identity() {
    // the verified encoder: scanning its output returns the input lists
    let lists: Vec<Vec<usize>> = vec![vec![1, 2], vec![2, 3], vec![4], vec![4], vec![]];
    let g = encode_graph(&lists, 3, 2).unwrap();
    assert_eq!(g.num_nodes(), 5);
    assert_eq!(g.num_arcs_hint(), Some(6));
    assert_eq!(scan_all(&g), lists);
    let offs = g.build_offsets().unwrap();
    for v in 0..5 {
        assert_eq!(g.successors(v, &offs, 5).unwrap(), lists[v], "node {}", v);
    }
}

#[test]
fn encode_then_decode_varied_shapes() {
    // empty lists, a dense list, gaps, and a tail node
    let n = 12usize;
    let lists: Vec<Vec<usize>> = vec![
        vec![],
        vec![0, 2, 4, 6, 8, 10],
        vec![11],
        vec![],
        vec![0, 1, 2, 3, 4, 5, 6, 7, 8, 9, 10, 11],
        vec![5],
        vec![],
        vec![1, 3],
        vec![],
        vec![],
        vec![0],
        vec![],
    ];
    let g = encode_graph(&lists, 7, 4).unwrap();
    assert_eq!(g.num_nodes(), n);
    assert_eq!(scan_all(&g), lists);
    let mut deg = g.iter_degrees();
    for v in 0..n {
        assert_eq!(deg.next_degree().unwrap(), lists[v].len(), "node {}", v);
    }
}

#[test]
fn encode_rejects_bad_lists() {
    // an element at or past the node count
    assert!(encode_graph(&vec![vec![7usize], vec![]], 3, 2).is_err());
    // duplicates are not strictly increasing
    assert!(encode_graph(&vec![vec![1usize, 1], vec![]], 0, 0).is_err());
}
