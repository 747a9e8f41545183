use contest_lib::warshall_floyd::{warshall_floyd, Graph};

#[test]
fn test_warshall_floyd() {
    let mut graph = Graph::new(4);
    graph.set_weight((0, 1), 1);
    graph.set_weight((1, 2), 1);
    graph.set_weight((0, 2), 3);
    graph.set_weight((2, 3), 5);
    let sol = warshall_floyd(graph);
    assert_eq!(sol.weight((0, 1)), 1);
    assert_eq!(sol.weight((0, 2)), 2);
    assert_eq!(sol.weight((0, 3)), 7);
    assert_eq!(sol.weight((1, 2)), 1);
    assert_eq!(sol.weight((1, 3)), 6);
    assert_eq!(sol.weight((2, 3)), 5);
}

#[test]
fn graph_new_and_set_weight() {
    let mut graph = Graph::new(3);
    assert_eq!(graph.weight((0, 0)), 0);
    assert_eq!(graph.weight((0, 1)), -1);
    assert_eq!(graph.set_weight((0, 1), 4), -1);
    assert_eq!(graph.weight((1, 0)), 4);
    assert_eq!(graph.set_weight((1, 0), -1), 4);
    assert_eq!(graph.weight((0, 1)), -1);
}

#[test]
fn warshall_floyd_unreachable_and_last_vertex() {
    let mut graph = Graph::new(5);
    graph.set_weight((0, 3), 2);
    graph.set_weight((3, 1), 2);
    graph.set_weight((0, 1), 10);
    graph.set_weight((1, 4), 1);
    graph.set_weight((0, 4), 9);
    let sol = warshall_floyd(graph);
    assert_eq!(sol.weight((0, 1)), 4);
    assert_eq!(sol.weight((0, 4)), 5);
    assert_eq!(sol.weight((3, 4)), 3);
    assert_eq!(sol.weight((2, 0)), -1);
    assert_eq!(sol.weight((2, 2)), 0);
    assert_eq!(sol.weight((4, 0)), 5);
}
