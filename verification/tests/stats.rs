use dag::stats::{Average, DAGStatsBuilder, DAGStatsData};

fn nothing() -> DAGStatsData {
    DAGStatsData {
        average_depth: None,
        average_nodes_per_depth: None,
        average_in_references: None,
        max_depth: None,
        nodes_count: None,
        edges_count: None,
        nodes_with_no_incoming_edges: None,
        isolated_nodes_count: None,
    }
}

#[test]
fn stats_data_new_and_default_hold_nothing() {
    assert_eq!(DAGStatsData::new(), nothing());
    assert_eq!(DAGStatsData::default(), nothing());
}

#[test]
fn builder_starts_with_nothing() {
    assert_eq!(DAGStatsBuilder::new().build(), nothing());
}

#[test]
fn builder_sets_each_field_alone() {
    let a = Average { total: 2, count: 3 };
    let mut b = DAGStatsBuilder::new();
    b.set_average_depth(a);
    assert_eq!(b.build(), DAGStatsData { average_depth: Some(a), ..nothing() });
    let mut b = DAGStatsBuilder::new();
    b.set_average_nodes_per_depth(a);
    assert_eq!(b.build(), DAGStatsData { average_nodes_per_depth: Some(a), ..nothing() });
    let mut b = DAGStatsBuilder::new();
    b.set_average_in_references(a);
    assert_eq!(b.build(), DAGStatsData { average_in_references: Some(a), ..nothing() });
    let mut b = DAGStatsBuilder::new();
    b.set_max_depth(4);
    assert_eq!(b.build(), DAGStatsData { max_depth: Some(4), ..nothing() });
    let mut b = DAGStatsBuilder::new();
    b.set_nodes_count(5);
    assert_eq!(b.build(), DAGStatsData { nodes_count: Some(5), ..nothing() });
    let mut b = DAGStatsBuilder::new();
    b.set_edges_count(6);
    assert_eq!(b.build(), DAGStatsData { edges_count: Some(6), ..nothing() });
    let mut b = DAGStatsBuilder::new();
    b.set_nodes_with_no_incoming_edges(7);
    assert_eq!(b.build(), DAGStatsData { nodes_with_no_incoming_edges: Some(7), ..nothing() });
    let mut b = DAGStatsBuilder::new();
    b.set_isolated_nodes_count(8);
    assert_eq!(b.build(), DAGStatsData { isolated_nodes_count: Some(8), ..nothing() });
}

#[test]
fn builder_setters_chain_and_keep_earlier_fields() {
    let mut b = DAGStatsBuilder::new();
    b.set_max_depth(3).set_nodes_count(9).set_average_depth(Average { total: 1, count: 2 });
    b.set_max_depth(4);
    assert_eq!(
        b.build(),
        DAGStatsData {
            average_depth: Some(Average { total: 1, count: 2 }),
            max_depth: Some(4),
            nodes_count: Some(9),
            ..nothing()
        }
    );
}
