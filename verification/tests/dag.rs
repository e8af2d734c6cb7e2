use dag::dag::Dag;
use dag::loader::{DagFileData, LoadError};
use dag::node::{Node, Pointer};
use dag::render::{push_integer, render_text, Marker, RenderLine};
use dag::text::parse_integer;
use dag::stats::{Average, DAGStats, DAGStatsData};
use dag::traverse::{
    summarize, PathSummary, TraversalDepthExceeded, DEFAULT_DEPTH_LIMIT, MAX_DEPTH_LIMIT,
};

fn lines(text: &[&str]) -> Vec<String> {
    text.iter().map(|l| l.to_string()).collect()
}

fn from_edges(root: i128, nodes: &[(i128, i128, i128)]) -> Result<Dag, LoadError> {
    Dag::from_data(&DagFileData { num_nodes: root, nodes: nodes.to_vec() })
}

fn value(a: Average) -> f64 {
    if a.count == 0 {
        0.0
    } else {
        a.total as f64 / a.count as f64
    }
}

fn report(depth: (u128, u128), per_level: (u128, u128), refs: (u128, u128), max: usize) -> DAGStatsData {
    DAGStatsData {
        average_depth: Some(Average { total: depth.0, count: depth.1 }),
        average_nodes_per_depth: Some(Average { total: per_level.0, count: per_level.1 }),
        average_in_references: Some(Average { total: refs.0, count: refs.1 }),
        max_depth: Some(max),
        nodes_count: None,
        edges_count: None,
        nodes_with_no_incoming_edges: None,
        isolated_nodes_count: None,
    }
}

fn open(depth: usize, id: i128) -> RenderLine {
    RenderLine { depth, marker: Marker::Open(id) }
}

fn close(depth: usize) -> RenderLine {
    RenderLine { depth, marker: Marker::Close }
}

#[test]
fn new_dag_is_empty_with_the_default_limit() {
    let dag = Dag::new();
    assert!(dag.root().is_none());
    assert_eq!(dag.graph().len(), 0);
    assert_eq!(dag.depth_limit(), DEFAULT_DEPTH_LIMIT);
    assert_eq!(DEFAULT_DEPTH_LIMIT, 64);
    assert_eq!(MAX_DEPTH_LIMIT, 100);
}

#[test]
fn empty_dag_has_all_zero_averages() {
    let dag = Dag::new();
    assert_eq!(dag.calculate(), Ok(report((0, 0), (0, 0), (0, 0), 0)));
    assert_eq!(value(dag.get_average_depth().unwrap()), 0.0);
    assert_eq!(value(dag.get_average_nodes_per_depth().unwrap()), 0.0);
    assert_eq!(value(dag.get_average_in_references().unwrap()), 0.0);
    assert_eq!(dag.get_max_depth(), Ok(0));
}

#[test]
fn empty_input_loads_as_the_empty_dag() {
    for text in [&[][..], &["0"][..]] {
        let dag = Dag::from_source(&lines(text)).unwrap();
        assert!(dag.root().is_none());
        assert_eq!(dag.graph().len(), 0);
        assert_eq!(dag.calculate(), Ok(report((0, 0), (0, 0), (0, 0), 0)));
        assert_eq!(dag.render(), Ok(String::new()));
    }
    let dag = from_edges(5, &[]).unwrap();
    assert!(dag.root().is_none());
}

#[test]
fn nodes_without_links_give_a_lone_root() {
    for n in 1..6usize {
        let mut text = vec![n.to_string()];
        for _ in 1..n {
            text.push("-1 -1".to_string());
        }
        let dag = Dag::from_source(&text).unwrap();
        assert_eq!(dag.graph().len(), n);
        assert_eq!(dag.root().as_ref(dag.graph()), &Node::new(n as i128));
        let stats = dag.calculate().unwrap();
        assert_eq!(value(stats.average_depth.unwrap()), 0.0);
        assert_eq!(stats.max_depth, Some(1));
        assert_eq!(value(stats.average_nodes_per_depth.unwrap()), 1.0);
        assert_eq!(stats, report((0, 1), (1, 1), (1, 1), 1));
    }
}

#[test]
fn from_source_builds_the_described_graph() {
    let dag = Dag::from_source(&lines(&["3", "-1 -1", "1 2"])).unwrap();
    let graph = dag.graph();
    assert_eq!(graph.len(), 3);
    let root = dag.root().as_ref(graph);
    assert_eq!(root.val, 3);
    assert_eq!(root.left.as_ref(graph), &Node::new(1));
    assert_eq!(root.right.as_ref(graph), &Node::new(2));
    assert_eq!(dag.root(), Pointer(Some(2)));
    assert_eq!(dag.calculate(), Ok(report((2, 3), (3, 2), (3, 3), 2)));
}

#[test]
fn shared_child_is_counted_once_per_path() {
    let dag = from_edges(1, &[(1, 5, 5), (5, -1, -1)]).unwrap();
    let graph = dag.graph();
    assert_eq!(graph.len(), 2);
    let root = dag.root().as_ref(graph);
    assert!(root.left.is_clone_of(&root.right));
    assert_eq!(root.left.as_ref(graph).val, 5);
    let depth = dag.get_average_depth().unwrap();
    assert_eq!(depth, Average { total: 2, count: 3 });
    assert!((value(depth) - 0.667).abs() < 0.001);
    assert_eq!(dag.get_average_nodes_per_depth(), Ok(Average { total: 3, count: 2 }));
    assert_eq!(dag.get_average_in_references(), Ok(Average { total: 3, count: 3 }));
    assert_eq!(dag.get_max_depth(), Ok(2));
}

#[test]
fn shared_subgraph_is_walked_on_every_path() {
    let dag = Dag::from_source(&lines(&["4", "-1 -1", "1 2", "3 3"])).unwrap();
    assert_eq!(dag.graph().len(), 4);
    assert_eq!(dag.calculate(), Ok(report((10, 7), (7, 3), (7, 7), 3)));
    assert_eq!(
        summarize(dag.graph(), dag.root(), 64),
        Ok(PathSummary { visits: 7, depth_sum: 10, max_depth: 3 })
    );
}

#[test]
fn getters_agree_with_the_report() {
    let dag = Dag::from_source(&lines(&["5", "-1 -1", "1 2", "3 -1", "4 3"])).unwrap();
    let stats = dag.calculate().unwrap();
    assert_eq!(stats, report((14, 8), (8, 4), (8, 8), 4));
    assert_eq!(Some(dag.get_average_depth().unwrap()), stats.average_depth);
    assert_eq!(Some(dag.get_average_nodes_per_depth().unwrap()), stats.average_nodes_per_depth);
    assert_eq!(Some(dag.get_average_in_references().unwrap()), stats.average_in_references);
    assert_eq!(Some(dag.get_max_depth().unwrap()), stats.max_depth);
    assert_eq!(value(stats.average_in_references.unwrap()), 1.0);
}

#[test]
fn placeholder_counts_are_zero() {
    let dag = Dag::from_source(&lines(&["3", "-1 -1", "1 2"])).unwrap();
    assert_eq!(dag.get_nodes_count(), 0);
    assert_eq!(dag.get_edges_count(), 0);
    assert_eq!(dag.get_nodes_with_no_incoming_edges(), 0);
    assert_eq!(dag.get_isolated_nodes_count(), 0);
}

#[test]
fn stats_twice_give_the_same_report() {
    let dag = Dag::from_source(&lines(&["4", "-1 -1", "1 2", "3 3"])).unwrap();
    let first = dag.calculate();
    let second = dag.calculate();
    assert_eq!(first, second);
    let looped = Dag::from_source(&lines(&["2", "2 -1"])).unwrap();
    assert_eq!(looped.calculate(), looped.calculate());
}

#[test]
fn self_loop_loads_and_exceeds_the_depth_limit() {
    let mut dag = Dag::from_source(&lines(&["2", "2 -1"])).unwrap();
    let root = dag.root().as_ref(dag.graph());
    assert_eq!(root.val, 2);
    assert!(root.left.is_clone_of(&dag.root()));
    assert!(root.right.is_none());
    assert_eq!(dag.calculate(), Err(TraversalDepthExceeded { limit: 64 }));
    assert_eq!(dag.get_average_depth(), Err(TraversalDepthExceeded { limit: 64 }));
    assert_eq!(dag.get_average_nodes_per_depth(), Err(TraversalDepthExceeded { limit: 64 }));
    assert_eq!(dag.get_average_in_references(), Err(TraversalDepthExceeded { limit: 64 }));
    assert_eq!(dag.get_max_depth(), Err(TraversalDepthExceeded { limit: 64 }));
    assert_eq!(dag.render(), Err(TraversalDepthExceeded { limit: 64 }));
    assert_eq!(dag.render_lines(), Err(TraversalDepthExceeded { limit: 64 }));
    for limit in [0usize, 1, 7, 100] {
        assert!(dag.set_depth_limit(limit));
        assert_eq!(dag.calculate(), Err(TraversalDepthExceeded { limit }));
    }
}

#[test]
fn back_reference_exceeds_the_depth_limit() {
    let dag = from_edges(1, &[(1, 2, -1), (2, -1, 3), (3, 1, -1)]).unwrap();
    assert_eq!(dag.graph().len(), 3);
    assert_eq!(dag.calculate(), Err(TraversalDepthExceeded { limit: 64 }));
}

#[test]
fn depth_limit_is_the_greatest_depth_allowed() {
    let mut dag = from_edges(1, &[(1, 2, -1), (2, 3, -1), (3, -1, -1)]).unwrap();
    assert_eq!(dag.get_max_depth(), Ok(3));
    assert!(dag.set_depth_limit(2));
    assert_eq!(dag.depth_limit(), 2);
    assert_eq!(dag.calculate(), Ok(report((3, 3), (3, 3), (3, 3), 3)));
    assert!(dag.set_depth_limit(1));
    assert_eq!(dag.calculate(), Err(TraversalDepthExceeded { limit: 1 }));
    assert!(dag.set_depth_limit(0));
    assert_eq!(dag.get_max_depth(), Err(TraversalDepthExceeded { limit: 0 }));
    let mut lone = from_edges(9, &[(9, -1, -1)]).unwrap();
    assert!(lone.set_depth_limit(0));
    assert_eq!(lone.calculate(), Ok(report((0, 1), (1, 1), (1, 1), 1)));
}

#[test]
fn depth_limit_above_the_maximum_is_refused() {
    let mut dag = Dag::new();
    assert!(dag.set_depth_limit(100));
    assert_eq!(dag.depth_limit(), 100);
    assert!(!dag.set_depth_limit(101));
    assert_eq!(dag.depth_limit(), 100);
    assert!(!dag.set_depth_limit(usize::MAX));
    assert_eq!(dag.depth_limit(), 100);
}

#[test]
fn deep_chain_within_the_maximum_is_walked() {
    let mut nodes = Vec::new();
    for id in 0..100i128 {
        nodes.push((id, id + 1, -1));
    }
    nodes.push((100, -1, -1));
    let mut dag = from_edges(0, &nodes).unwrap();
    assert_eq!(dag.calculate(), Err(TraversalDepthExceeded { limit: 64 }));
    assert!(dag.set_depth_limit(100));
    assert_eq!(dag.calculate(), Ok(report((5050, 101), (101, 101), (101, 101), 101)));
}

#[test]
fn full_binary_sharing_counts_every_path() {
    let mut nodes = Vec::new();
    for id in 0..20i128 {
        nodes.push((id, id + 1, id + 1));
    }
    nodes.push((20, -1, -1));
    let dag = from_edges(0, &nodes).unwrap();
    assert_eq!(dag.graph().len(), 21);
    let visits: u128 = (1 << 21) - 1;
    let depth_sum: u128 = (0..21u128).map(|d| d << d).sum();
    assert_eq!(dag.calculate(), Ok(report((depth_sum, visits), (visits, 21), (visits, visits), 21)));
}

#[test]
fn missing_reference_is_reported_with_both_identities() {
    let r = Dag::from_source(&lines(&["3", "-1 -1", "99 -1"]));
    assert_eq!(
        r.err(),
        Some(LoadError::UnresolvedReferenceError { from_id: 3, missing_id: 99 })
    );
    let r = from_edges(3, &[(3, 99, -1)]);
    assert_eq!(
        r.err(),
        Some(LoadError::UnresolvedReferenceError { from_id: 3, missing_id: 99 })
    );
}

#[test]
fn missing_reference_of_the_last_declaration_comes_first() {
    let r = from_edges(1, &[(1, 8, 9), (2, 7, -1)]);
    assert_eq!(r.err(), Some(LoadError::UnresolvedReferenceError { from_id: 2, missing_id: 7 }));
    let r = from_edges(1, &[(1, 8, 9)]);
    assert_eq!(r.err(), Some(LoadError::UnresolvedReferenceError { from_id: 1, missing_id: 8 }));
    let r = from_edges(1, &[(1, -1, 9)]);
    assert_eq!(r.err(), Some(LoadError::UnresolvedReferenceError { from_id: 1, missing_id: 9 }));
    let r = from_edges(1, &[(1, 1, -2)]);
    assert_eq!(r.err(), Some(LoadError::UnresolvedReferenceError { from_id: 1, missing_id: -2 }));
}

#[test]
fn missing_reference_comes_before_missing_root() {
    let r = from_edges(7, &[(1, 2, -1)]);
    assert_eq!(r.err(), Some(LoadError::UnresolvedReferenceError { from_id: 1, missing_id: 2 }));
}

#[test]
fn missing_root_is_reported() {
    assert_eq!(Dag::from_source(&lines(&["5", "-1 -1"])).err(), Some(LoadError::MissingRootError));
    assert_eq!(Dag::from_source(&lines(&["-5"])).err(), Some(LoadError::MissingRootError));
    assert_eq!(Dag::from_source(&lines(&["0", "-1 -1"])).err(), Some(LoadError::MissingRootError));
    assert_eq!(from_edges(2, &[(1, -1, -1)]).err(), Some(LoadError::MissingRootError));
}

#[test]
fn parse_error_of_a_line_is_passed_on() {
    assert_eq!(
        Dag::from_source(&lines(&["3", "-1 -1", "1 x"])).err(),
        Some(LoadError::ParseError { line: 2 })
    );
    assert_eq!(Dag::from_source(&lines(&["three"])).err(), Some(LoadError::ParseError { line: 0 }));
}

#[test]
fn first_declaration_with_a_child_decides_the_side() {
    let dag = from_edges(5, &[(5, -1, 3), (5, 2, 4), (2, -1, -1), (3, -1, -1), (4, -1, -1)]).unwrap();
    let graph = dag.graph();
    assert_eq!(graph.len(), 4);
    let root = dag.root().as_ref(graph);
    assert_eq!(root.val, 5);
    assert_eq!(root.left.as_ref(graph).val, 2);
    assert_eq!(root.right.as_ref(graph).val, 3);
}

#[test]
fn slots_follow_the_order_of_first_declaration() {
    let dag = from_edges(30, &[(30, 10, 20), (10, -1, -1), (30, -1, -1), (20, 10, -1)]).unwrap();
    let graph = dag.graph();
    assert_eq!(graph.len(), 3);
    assert_eq!(
        *Pointer(Some(0)).as_ref(graph),
        Node { val: 30, left: Pointer(Some(1)), right: Pointer(Some(2)) }
    );
    assert_eq!(*Pointer(Some(1)).as_ref(graph), Node::new(10));
    assert_eq!(
        *Pointer(Some(2)).as_ref(graph),
        Node { val: 20, left: Pointer(Some(1)), right: Pointer(None) }
    );
    assert_eq!(dag.root(), Pointer(Some(0)));
}

#[test]
fn render_lines_open_and_close_each_visit() {
    let dag = Dag::from_source(&lines(&["3", "-1 -1", "1 2"])).unwrap();
    assert_eq!(
        dag.render_lines(),
        Ok(vec![open(0, 3), open(1, 1), close(1), open(1, 2), close(1), close(0)])
    );
}

#[test]
fn render_indents_by_four_spaces_per_depth() {
    let dag = Dag::from_source(&lines(&["3", "-1 -1", "1 2"])).unwrap();
    assert_eq!(dag.render(), Ok("[3 \n    [1 \n    ]\n    [2 \n    ]\n]\n".to_string()));
    let lone = Dag::from_source(&lines(&["1"])).unwrap();
    assert_eq!(lone.render(), Ok("[1 \n]\n".to_string()));
}

#[test]
fn render_shows_a_shared_node_on_every_path() {
    let dag = from_edges(1, &[(1, 5, 5), (5, -1, -7), (-7, -1, -1)]).unwrap();
    let expected = "[1 \n    [5 \n        [-7 \n        ]\n    ]\n    [5 \n        [-7 \n        ]\n    ]\n]\n";
    assert_eq!(dag.render(), Ok(expected.to_string()));
}

#[test]
fn render_text_writes_identities_in_decimal() {
    let ids = [0, 9, 10, 123456789, -1, -10, i128::MAX, i128::MIN];
    for id in ids {
        let text = render_text(&vec![open(2, id), close(2)]);
        assert_eq!(text, format!("        [{} \n        ]\n", id));
    }
    assert_eq!(render_text(&vec![]), "");
}

#[test]
fn rendering_of_a_tree_gives_back_its_links() {
    let nodes = [(1, 2, 3), (2, 4, -1), (3, -1, 5), (4, -1, -1), (5, 6, 7), (6, -1, -1), (7, -1, -1)];
    let dag = from_edges(1, &nodes).unwrap();
    let text = dag.render().unwrap();
    let mut open_at: Vec<i128> = Vec::new();
    let mut found: Vec<(i128, i128)> = Vec::new();
    for line in text.lines() {
        let indent = line.len() - line.trim_start().len();
        assert_eq!(indent % 4, 0);
        let depth = indent / 4;
        let body = line.trim();
        if let Some(id) = body.strip_prefix('[') {
            let id: i128 = id.trim().parse().unwrap();
            open_at.truncate(depth);
            if depth > 0 {
                found.push((open_at[depth - 1], id));
            }
            open_at.push(id);
        } else {
            assert_eq!(body, "]");
        }
    }
    let mut expected: Vec<(i128, i128)> = Vec::new();
    for (id, left, right) in nodes {
        for child in [left, right] {
            if child != -1 {
                expected.push((id, child));
            }
        }
    }
    found.sort();
    expected.sort();
    assert_eq!(found, expected);
}

#[test]
fn identity_text_reads_back_as_the_identity() {
    for id in [0, 1, -1, 9, 10, 99, -100, 4711, i128::MAX, i128::MIN, i128::MAX - 1, i128::MIN + 1] {
        let mut text = String::from("x");
        push_integer(&mut text, id);
        assert_eq!(text, format!("x{}", id));
        let word: Vec<char> = text.chars().skip(1).collect();
        assert_eq!(parse_integer(&word), Some(id));
    }
}

#[test]
fn depth_levels_are_the_depths_that_are_visited() {
    let graphs: [&[(i128, i128, i128)]; 3] = [
        &[(1, 2, 3), (2, 4, -1), (3, -1, 5), (4, -1, -1), (5, 6, 7), (6, -1, -1), (7, -1, -1)],
        &[(1, 5, 5), (5, -1, -1)],
        &[(1, -1, -1)],
    ];
    for nodes in graphs {
        let dag = from_edges(1, nodes).unwrap();
        let mut depths: Vec<usize> = dag
            .render_lines()
            .unwrap()
            .into_iter()
            .filter(|line| matches!(line.marker, Marker::Open(_)))
            .map(|line| line.depth)
            .collect();
        let visits = depths.len() as u128;
        let depth_sum: u128 = depths.iter().map(|d| *d as u128).sum();
        depths.sort();
        depths.dedup();
        let levels = depths.len();
        assert_eq!(depths, (0..levels).collect::<Vec<usize>>());
        assert_eq!(dag.get_max_depth(), Ok(levels));
        assert_eq!(dag.get_average_depth(), Ok(Average { total: depth_sum, count: visits }));
        assert_eq!(
            dag.get_average_nodes_per_depth(),
            Ok(Average { total: visits, count: levels as u128 })
        );
    }
}
