use hopcroft_karp::{HopcroftKarp, MatchError};

#[test]
fn testcase1() {
    let mut hopkarp = HopcroftKarp::new(2);
    let graph = vec![vec![0, 1], vec![0]];
    let expected: Vec<Option<usize>> = vec![Some(1), Some(0)];
    assert_eq!(&expected, hopkarp.get_maximum_matching(&graph).unwrap());
}

#[test]
fn testcase2() {
    let mut hopkarp = HopcroftKarp::new(5);
    let graph = vec![vec![0, 1], vec![0, 4], vec![2, 3], vec![0, 4], vec![0, 3]];
    let expected: Vec<Option<usize>> = vec![Some(1), Some(4), Some(2), Some(0), Some(3)];
    assert_eq!(&expected, hopkarp.get_maximum_matching(&graph).unwrap());
}

#[test]
fn testcase3() {
    let mut hopkarp = HopcroftKarp::new(7);
    let graph = vec![
        vec![0, 1],
        vec![1, 2],
        vec![1],
        vec![2, 3, 4, 5],
        vec![3, 6],
        vec![6],
        vec![6],
    ];
    let expected: Vec<Option<usize>> =
        vec![Some(0), Some(2), Some(1), Some(4), Some(3), Some(6), None];
    assert_eq!(expected, *hopkarp.get_maximum_matching(&graph).unwrap());
}

#[test]
fn testcase4() {
    let mut hopkarp = HopcroftKarp::new(5);
    let graph = vec![vec![0, 2], vec![0, 2], vec![2, 1], vec![4]];
    let expected: Vec<Option<usize>> = vec![Some(0), Some(2), Some(1), Some(4), None];
    assert_eq!(expected, *hopkarp.get_maximum_matching(&graph).unwrap());
}

#[test]
fn testcase5() {
    let mut hopkarp = HopcroftKarp::new(8);
    let graph = vec![
        vec![2, 3],
        vec![2, 3],
        vec![2],
        vec![0, 4, 6],
        vec![0, 1, 6],
        vec![1, 7],
        vec![5],
        vec![1, 3, 7],
    ];
    let expected: Vec<Option<usize>> = vec![
        Some(2),
        Some(3),
        None,
        Some(0),
        Some(6),
        Some(7),
        Some(5),
        Some(1),
    ];
    assert_eq!(expected, *hopkarp.get_maximum_matching(&graph).unwrap());
}

fn matched(m: &[Option<usize>]) -> usize {
    m.iter().filter(|x| x.is_some()).count()
}

fn is_matching_of(graph: &[Vec<usize>], m: &[Option<usize>]) -> bool {
    let mut seen = std::collections::HashSet::new();
    for (l, r) in m.iter().enumerate() {
        if let Some(r) = r {
            if l >= graph.len() || !graph[l].contains(r) || !seen.insert(*r) {
                return false;
            }
        }
    }
    true
}

#[test]
fn empty_adjacency_gives_empty_matching() {
    let mut hopkarp = HopcroftKarp::new(0);
    let graph: Vec<Vec<usize>> = vec![];
    let expected: Vec<Option<usize>> = vec![];
    assert_eq!(&expected, hopkarp.get_maximum_matching(&graph).unwrap());
}

#[test]
fn vertex_without_edges_stays_unmatched() {
    let mut hopkarp = HopcroftKarp::new(3);
    let graph = vec![vec![0], vec![], vec![1, 0]];
    let m = hopkarp.get_maximum_matching(&graph).unwrap().clone();
    assert_eq!(m[1], None);
    assert_eq!(matched(&m), 2);
    assert!(is_matching_of(&graph, &m));
}

#[test]
fn second_call_keeps_the_matching() {
    let mut hopkarp = HopcroftKarp::new(7);
    let graph = vec![
        vec![0, 1],
        vec![1, 2],
        vec![1],
        vec![2, 3, 4, 5],
        vec![3, 6],
        vec![6],
        vec![6],
    ];
    let first = hopkarp.get_maximum_matching(&graph).unwrap().clone();
    let second = hopkarp.get_maximum_matching(&graph).unwrap().clone();
    assert_eq!(first, second);
}

#[test]
fn complete_bipartite_graph_is_perfectly_matched() {
    let n = 6;
    let mut hopkarp = HopcroftKarp::new(n);
    let graph: Vec<Vec<usize>> = (0..n).map(|_| (0..n).collect()).collect();
    let m = hopkarp.get_maximum_matching(&graph).unwrap().clone();
    assert_eq!(matched(&m), n);
    assert!(is_matching_of(&graph, &m));
}

#[test]
fn size_is_bounded_by_the_smaller_side() {
    let mut hopkarp = HopcroftKarp::new(4);
    let graph = vec![vec![0, 1], vec![0, 1], vec![1, 0], vec![0]];
    let m = hopkarp.get_maximum_matching(&graph).unwrap().clone();
    assert_eq!(matched(&m), 2);
    assert!(is_matching_of(&graph, &m));
}

#[test]
fn matching_needs_a_long_augmenting_path() {
    let mut hopkarp = HopcroftKarp::new(4);
    let graph = vec![vec![0, 1], vec![1, 2], vec![2, 3], vec![0]];
    let m = hopkarp.get_maximum_matching(&graph).unwrap().clone();
    assert_eq!(matched(&m), 4);
    assert!(is_matching_of(&graph, &m));
    assert_eq!(m[3], Some(0));
}

#[test]
fn too_many_left_vertices_is_invalid_input() {
    let mut hopkarp = HopcroftKarp::new(2);
    let graph = vec![vec![0], vec![1], vec![0]];
    assert_eq!(hopkarp.get_maximum_matching(&graph), Err(MatchError::InvalidInput));
    let ok = vec![vec![1], vec![0]];
    let expected: Vec<Option<usize>> = vec![Some(1), Some(0)];
    assert_eq!(&expected, hopkarp.get_maximum_matching(&ok).unwrap());
}

#[test]
fn right_index_past_capacity_is_out_of_bounds() {
    let mut hopkarp = HopcroftKarp::new(2);
    let graph = vec![vec![0], vec![2]];
    assert_eq!(hopkarp.get_maximum_matching(&graph), Err(MatchError::IndexOutOfBounds));
    let ok = vec![vec![0], vec![1]];
    let expected: Vec<Option<usize>> = vec![Some(0), Some(1)];
    assert_eq!(&expected, hopkarp.get_maximum_matching(&ok).unwrap());
}

#[test]
fn repeated_call_continues_from_previous_matching() {
    let mut hopkarp = HopcroftKarp::new(2);
    let first = vec![vec![0]];
    let expected: Vec<Option<usize>> = vec![Some(0), None];
    assert_eq!(&expected, hopkarp.get_maximum_matching(&first).unwrap());
    let second = vec![vec![0, 1], vec![0]];
    let expected: Vec<Option<usize>> = vec![Some(1), Some(0)];
    assert_eq!(&expected, hopkarp.get_maximum_matching(&second).unwrap());
}
