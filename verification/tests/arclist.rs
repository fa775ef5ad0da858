use bvgraph::arc_list_graph::{ArcListGraph, NodeIterator};

#[test]
fn test_coo_iter() {
    let arcs = vec![(0, 1), (0, 2), (1, 2), (1, 3), (2, 4), (3, 4)];
    let coo = ArcListGraph::new(5, arcs.clone());
    assert_eq!(coo.num_nodes(), 5);
    assert!(coo.num_arcs_hint().is_none());
    let mut it = coo.iter_from(0);
    let mut rebuilt = Vec::new();
    while let Some((v, succ)) = it.next() {
        for d in succ.collect() {
            rebuilt.push((v, d));
        }
    }
    assert_eq!(rebuilt, arcs);
}

#[test]
fn node_iterator_from_middle() {
    let arcs = vec![(0, 1), (0, 2), (1, 2), (1, 3), (2, 4), (3, 4)];
    let g = ArcListGraph::new(5, arcs);
    let mut it = g.iter_from(2);
    let (v, succ) = it.next().unwrap();
    assert_eq!(v, 2);
    assert_eq!(succ.collect(), vec![4]);
    let (v, succ) = it.next().unwrap();
    assert_eq!(v, 3);
    assert_eq!(succ.collect(), vec![4]);
    let (v, succ) = it.next().unwrap();
    assert_eq!(v, 4);
    assert_eq!(succ.collect(), Vec::<usize>::new());
    assert!(it.next().is_none());
}

#[test]
fn successors_stepwise() {
    let arcs = vec![(0, 7), (0, 9), (1, 3)];
    let g = ArcListGraph::new(2, arcs);
    let mut it = NodeIterator::new(2, vec![(0, 7), (0, 9), (1, 3)]);
    let (v, mut succ) = it.next().unwrap();
    assert_eq!(v, 0);
    assert_eq!(succ.next(), Some(7));
    assert_eq!(succ.next(), Some(9));
    assert_eq!(succ.next(), None);
    let (v, mut succ) = it.next().unwrap();
    assert_eq!(v, 1);
    assert_eq!(succ.next(), Some(3));
    assert_eq!(succ.next(), None);
    assert_eq!(g.num_nodes(), 2);
}
