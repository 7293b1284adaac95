//! Neighbours along bonds and hop distances.

use tnviz::graph::{adjacency, bfs, hop_distances};
use tnviz::lower::parse;

#[test]
fn breadth_first_distances() {
    // 0 - 1 - 2, 1 - 3, and 4 alone.
    let adj = vec![vec![1], vec![0, 2, 3], vec![1], vec![1], vec![]];
    assert_eq!(bfs(&adj, 0), vec![Some(0), Some(1), Some(2), Some(2), None]);
    assert_eq!(bfs(&adj, 4), vec![None, None, None, None, Some(0)]);
}

#[test]
fn a_ring_takes_the_short_way_round() {
    let adj = vec![vec![1, 5], vec![0, 2], vec![1, 3], vec![2, 4], vec![3, 5], vec![4, 0]];
    assert_eq!(bfs(&adj, 0), vec![Some(0), Some(1), Some(2), Some(3), Some(2), Some(1)]);
}

#[test]
fn hop_distances_between_members() {
    // 0 - 1 - 2, and 3 alone; the members are listed in another order.
    let adj = vec![vec![1], vec![0, 2], vec![1], vec![]];
    let d = hop_distances(&[2, 0, 3, 1], &adj);
    assert_eq!(d, vec![
        vec![Some(0), Some(2), None, Some(1)],
        vec![Some(2), Some(0), None, Some(1)],
        vec![None, None, Some(0), None],
        vec![Some(1), Some(1), None, Some(0)],
    ]);
    // A part of the graph closed under bonds: 3 alone.
    assert_eq!(hop_distances(&[3], &adj), vec![vec![Some(0)]]);
}

#[test]
fn adjacency_of_a_network() {
    let net = match parse("A - B\nB - C\nA - C\nA.x - B.x\nD\n") {
        Ok(n) => n,
        Err(e) => panic!("{}", e.to_text()),
    };
    // Sorted neighbours, each once, though A and B share two bonds.
    assert_eq!(adjacency(&net), vec![vec![1, 2], vec![0, 2], vec![0, 1], vec![]]);
}
