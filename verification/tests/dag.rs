use aoc25::dag::Dag;
use aoc25::day11::Graph;

#[test]
fn test_dag_simple() {
    let mut dag = Dag::new();

    dag.add_edge(0, 1);
    dag.add_edge(0, 2);
    dag.add_edge(1, 2);

    assert_eq!(dag.neighbors(0).len(), 2);
    assert_eq!(dag.neighbors(1).len(), 1);
}

#[test]
fn test_neighbors_of_absent_label_is_empty() {
    let mut dag = Dag::new();
    dag.add_edge(1, 2);
    let none: Vec<u64> = dag.neighbors(7);
    assert!(none.is_empty());
    // Repeated calls see the same sequences.
    assert_eq!(dag.neighbors(1), dag.neighbors(1));
    assert_eq!(dag.neighbors(7), dag.neighbors(7));
}

#[test]
fn test_neighbors_keep_insertion_order_and_duplicates() {
    let mut dag = Dag::new();
    dag.add_edge(5, 9);
    dag.add_edge(5, 3);
    dag.add_edge(5, 9);
    assert_eq!(dag.neighbors(5), vec![9, 3, 9]);
}

fn label_graph(dag: Dag) -> Graph {
    Graph { dag, you: 0, out: 1, svr: 2, fft: 3, dac: 4 }
}

#[test]
fn test_two_paths_you_to_out() {
    // you -> a, you -> b, a -> out, b -> out: two distinct paths.
    let mut dag = Dag::new();
    let (you, out, a, b) = (0u64, 1u64, 10u64, 11u64);
    dag.add_edge(you, a);
    dag.add_edge(you, b);
    dag.add_edge(a, out);
    dag.add_edge(b, out);
    let g = label_graph(dag);
    assert_eq!(g.num_unique_paths(you, out), 2);
}

#[test]
fn test_path_count_to_self_is_one() {
    let mut dag = Dag::new();
    dag.add_edge(3, 4);
    dag.add_edge(4, 5);
    let g = label_graph(dag);
    // A node with out-edges still has exactly one path to itself.
    assert_eq!(g.num_unique_paths(3, 3), 1);
    assert_eq!(g.num_unique_paths(5, 5), 1);
}

#[test]
fn test_path_count_respects_duplicate_edges() {
    let mut dag = Dag::new();
    dag.add_edge(0, 1);
    dag.add_edge(0, 1);
    dag.add_edge(1, 2);
    let g = label_graph(dag);
    assert_eq!(g.num_unique_paths(0, 2), 2);
}

#[test]
fn test_path_count_unreachable_is_zero() {
    let mut dag = Dag::new();
    dag.add_edge(0, 1);
    let g = label_graph(dag);
    assert_eq!(g.num_unique_paths(1, 0), 0);
    assert_eq!(g.num_unique_paths(0, 99), 0);
}

#[test]
fn test_path_count_diamond_chain() {
    // Two diamonds in a row: 2 * 2 = 4 paths, and repeated queries agree.
    let mut dag = Dag::new();
    dag.add_edge(0, 1);
    dag.add_edge(0, 2);
    dag.add_edge(1, 3);
    dag.add_edge(2, 3);
    dag.add_edge(3, 4);
    dag.add_edge(3, 5);
    dag.add_edge(4, 6);
    dag.add_edge(5, 6);
    let g = label_graph(dag);
    assert_eq!(g.num_unique_paths(0, 6), 4);
    assert_eq!(g.num_unique_paths(0, 6), 4);
}

#[test]
fn test_day11_parts() {
    // svr -> fft -> dac -> out plus svr -> dac and fft -> out.
    let mut dag = Dag::new();
    let (you, out, svr, fft, dac) = (0u64, 1u64, 2u64, 3u64, 4u64);
    dag.add_edge(you, out);
    dag.add_edge(svr, fft);
    dag.add_edge(svr, dac);
    dag.add_edge(fft, dac);
    dag.add_edge(fft, out);
    dag.add_edge(dac, out);
    let g = Graph { dag, you, out, svr, fft, dac };
    assert_eq!(aoc25::day11::part1(&g), 1);
    // svr->fft * fft->dac * dac->out + svr->dac * dac->fft * fft->out
    // = 1 * 1 * 1 + 1 * 0 * 1 = 1.
    assert_eq!(aoc25::day11::part2(&g), 1);
}
