use factory_command::graph::{GraphError, GraphModel, Link, MAX_INT};
use factory_command::oracle::floyd_warshall;

fn link(a: usize, b: usize, distance: i32) -> Link {
    Link { a, b, distance }
}

#[test]
fn chain_of_three_routes_through_the_middle() {
    let graph = GraphModel::from_links(3, &vec![link(0, 1, 3), link(1, 2, 4)]).unwrap();
    let oracle = floyd_warshall(&graph);
    assert_eq!(oracle.distance(0, 2), 8);
    assert_eq!(oracle.distance(2, 0), 8);
    assert_eq!(oracle.distance(0, 1), 3);
    assert_eq!(oracle.distance(1, 2), 4);
    assert_eq!(oracle.path(0, 2), vec![0, 1, 2]);
    assert_eq!(oracle.path(2, 0), vec![2, 1, 0]);
    assert_eq!(oracle.centrality(1), 2);
    assert_eq!(oracle.centrality(0), 0);
    assert_eq!(oracle.centrality(2), 0);
}

#[test]
fn distance_to_self_is_zero_and_table_is_symmetric() {
    let graph = GraphModel::from_links(
        5,
        &vec![link(0, 1, 2), link(1, 2, 2), link(0, 2, 7), link(2, 3, 1), link(3, 4, 5)],
    )
    .unwrap();
    let oracle = floyd_warshall(&graph);
    for a in 0..5 {
        assert_eq!(oracle.distance(a, a), 0);
        assert_eq!(oracle.path(a, a), vec![a]);
        for b in 0..5 {
            assert_eq!(oracle.distance(a, b), oracle.distance(b, a));
        }
    }
    // 0-1-2 costs 2 + 2 + 1 = 5, cheaper than the direct link of 7.
    assert_eq!(oracle.distance(0, 2), 5);
    assert_eq!(oracle.path(0, 2), vec![0, 1, 2]);
    // 0-1-2-3-4 costs 2 + 2 + 1 + 5 and three stops.
    assert_eq!(oracle.distance(0, 4), 13);
    assert_eq!(oracle.path(0, 4), vec![0, 1, 2, 3, 4]);
}

#[test]
fn unreachable_pairs_have_no_route() {
    let graph = GraphModel::from_links(4, &vec![link(0, 1, 3)]).unwrap();
    let oracle = floyd_warshall(&graph);
    assert_eq!(oracle.distance(0, 2), MAX_INT);
    assert_eq!(oracle.distance(2, 3), MAX_INT);
    assert!(oracle.path(0, 2).is_empty());
    assert_eq!(oracle.next_hop(0, 2), None);
    assert_eq!(oracle.next_hop(0, 1), Some(1));
    assert_eq!(oracle.next_hop(1, 1), Some(1));
    assert_eq!(oracle.distance(0, 9), MAX_INT);
    assert!(oracle.path(9, 0).is_empty());
    assert_eq!(oracle.centrality(9), 0);
}

#[test]
fn refused_maps() {
    assert_eq!(GraphModel::new(16).err(), Some(GraphError::TooManyFactories));
    assert_eq!(
        GraphModel::from_links(3, &vec![link(0, 3, 1)]).err(),
        Some(GraphError::UnknownFactory)
    );
    assert_eq!(GraphModel::from_links(3, &vec![link(1, 1, 1)]).err(), Some(GraphError::SelfLink));
    assert_eq!(
        GraphModel::from_links(3, &vec![link(0, 1, 0)]).err(),
        Some(GraphError::DistanceOutOfRange)
    );
    assert_eq!(
        GraphModel::from_links(3, &vec![link(0, 1, 2001)]).err(),
        Some(GraphError::DistanceOutOfRange)
    );
    let graph = GraphModel::from_links(3, &vec![link(0, 1, 4), link(1, 0, 6)]).unwrap();
    assert_eq!(graph.factory_count(), 3);
    assert_eq!(graph.link_distance(0, 1), Some(6));
    assert_eq!(graph.link_distance(1, 0), Some(6));
    assert_eq!(graph.link_distance(0, 2), None);
}

#[test]
fn routes_cost_what_the_table_says() {
    let links = vec![
        link(0, 1, 4),
        link(1, 2, 1),
        link(2, 3, 6),
        link(0, 3, 15),
        link(3, 4, 2),
        link(1, 4, 11),
        link(5, 6, 3),
    ];
    let graph = GraphModel::from_links(7, &links).unwrap();
    let oracle = floyd_warshall(&graph);
    for a in 0..7 {
        for b in 0..7 {
            let path = oracle.path(a, b);
            let distance = oracle.distance(a, b);
            if distance == MAX_INT {
                assert!(path.is_empty());
                continue;
            }
            assert_eq!(path.first(), Some(&a));
            assert_eq!(path.last(), Some(&b));
            let mut cost = 0;
            for t in 0..path.len() - 1 {
                cost += graph.link_distance(path[t], path[t + 1]).unwrap();
            }
            if path.len() > 2 {
                cost += path.len() as i32 - 2;
            }
            assert_eq!(cost, distance);
        }
    }
    // 0-1-2-3 costs 4 + 1 + 6 and two stops, less than the link of 15.
    assert_eq!(oracle.distance(0, 3), 13);
    assert_eq!(oracle.path(0, 3), vec![0, 1, 2, 3]);
    // 1-2-3-4 costs 1 + 6 + 2 and two stops, as much as the link of 11:
    // the link was there first and stays.
    assert_eq!(oracle.distance(1, 4), 11);
    assert_eq!(oracle.path(1, 4), vec![1, 4]);
    assert_eq!(oracle.distance(0, 5), MAX_INT);
    assert_eq!(oracle.distance(5, 6), 3);
}

#[test]
fn centrality_counts_interior_hops_twice() {
    let links = vec![link(0, 1, 1), link(1, 2, 1), link(2, 3, 1), link(1, 4, 1)];
    let graph = GraphModel::from_links(5, &links).unwrap();
    let oracle = floyd_warshall(&graph);
    let mut interior = 0;
    let mut hits = vec![0; 5];
    for u in 0..5 {
        for v in u + 1..5 {
            let path = oracle.path(u, v);
            if path.len() > 2 {
                interior += path.len() as i32 - 2;
                for x in &path[1..path.len() - 1] {
                    hits[*x] += 1;
                }
            }
        }
    }
    let mut total = 0;
    for x in 0..5 {
        assert_eq!(oracle.centrality(x), 2 * hits[x]);
        total += oracle.centrality(x);
    }
    assert_eq!(total, 2 * interior);
    // Pairs through 1: 0-2, 0-3, 0-4, 2-4, 3-4. Pairs through 2: 0-3, 1-3, 3-4.
    assert_eq!(oracle.centrality(1), 10);
    assert_eq!(oracle.centrality(2), 6);
    assert_eq!(oracle.centrality(0), 0);
    assert_eq!(oracle.centrality(3), 0);
    assert_eq!(oracle.centrality(4), 0);
}

#[test]
fn empty_and_single_maps() {
    let graph = GraphModel::new(0).unwrap();
    let oracle = floyd_warshall(&graph);
    assert_eq!(oracle.factory_count(), 0);
    assert_eq!(oracle.distance(0, 0), MAX_INT);
    let graph = GraphModel::new(1).unwrap();
    let oracle = floyd_warshall(&graph);
    assert_eq!(oracle.distance(0, 0), 0);
    assert_eq!(oracle.path(0, 0), vec![0]);
    assert_eq!(oracle.centrality(0), 0);
}

#[test]
fn full_size_chain_stays_below_the_sentinel() {
    let mut links = Vec::new();
    for a in 0..14 {
        links.push(link(a, a + 1, 2000));
    }
    let graph = GraphModel::from_links(15, &links).unwrap();
    let oracle = floyd_warshall(&graph);
    assert_eq!(oracle.distance(0, 14), 14 * 2000 + 13);
    assert_eq!(oracle.path(0, 14), (0..15).collect::<Vec<usize>>());
    assert_eq!(oracle.centrality(7), 2 * 7 * 7);
}
