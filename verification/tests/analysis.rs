use homophily::account::AccountRecord;
use homophily::aggregate::{aggregate, analyze, get_country_followers, CountryStatistic};
use homophily::bfs::{bfs_distance, bfs_from, Ratio};
use homophily::error::AnalysisError;
use homophily::graph::create_graph;

fn record(username: &str, country: &str, followers: u32) -> AccountRecord {
    AccountRecord::new(username, country, followers, 0)
}

fn average_distance(stat: &CountryStatistic) -> f32 {
    let mut sum: f32 = 0.0;
    for r in stat.distance_avgs.iter() {
        sum += r.num as f32 / r.den as f32;
    }
    sum / stat.distance_avgs.len() as f32
}

fn average_followers(stat: &CountryStatistic) -> f32 {
    stat.followers_sum as f32 / stat.followers_count as f32
}

#[test]
fn test_create_graph() {
    let data = vec![
        record("a", "United States", 1),
        record("b", "United States", 1),
        record("c", "Canada", 1),
    ];
    let graph = create_graph(&data).unwrap();
    assert!(graph.contains_key("a"));
    assert!(graph.contains_key("b"));
    assert!(graph.contains_key("c"));
    assert!(graph.has_edge("a", "b"));
    assert!(graph.has_edge("b", "a"));
    assert!(!graph.has_edge("a", "c"));
    assert!(!graph.has_edge("b", "c"));
}

#[test]
fn test_country_followers() {
    let data = vec![
        record("a", "United States", 1),
        record("b", "United States", 2),
        record("c", "Canada", 3),
        record("d", "Canada", 4),
        record("e", "United States", 5),
        record("f", "United States", 6),
        record("g", "Canada", 7),
    ];
    let country_followers = get_country_followers(&data);
    assert_eq!(country_followers.get("United States"), Some(14));
    assert_eq!(country_followers.get("Canada"), Some(14));
    assert_eq!(country_followers.get("Brazil"), None);
}

#[test]
fn graph_is_symmetric_without_self_loops() {
    let data = vec![
        record("a", "United States", 1),
        record("b", "United States", 1),
        record("c", "Canada", 1),
        record("d", "Canada", 1),
    ];
    let graph = create_graph(&data).unwrap();
    assert!(graph.has_edge("a", "b") == graph.has_edge("b", "a"));
    assert!(graph.has_edge("c", "d") == graph.has_edge("d", "c"));
    assert!(!graph.has_edge("a", "a"));
    assert!(!graph.has_edge("c", "c"));
}

#[test]
fn unique_country_has_no_neighbors() {
    let data = vec![
        record("a", "United States", 1),
        record("b", "United States", 1),
        record("c", "Canada", 1),
    ];
    let graph = create_graph(&data).unwrap();
    assert!(graph.adj[2].is_empty());
    assert!(!graph.has_edge("c", "a"));
    assert!(!graph.has_edge("c", "b"));
}

#[test]
fn bfs_distances_self_and_neighbors() {
    let data = vec![
        record("a", "United States", 1),
        record("b", "United States", 1),
        record("c", "United States", 1),
        record("d", "Canada", 1),
    ];
    let graph = create_graph(&data).unwrap();
    let res = bfs_distance(&graph, "a").unwrap();
    assert_eq!(res.dist[0], Some(0));
    assert_eq!(res.dist[1], Some(1));
    assert_eq!(res.dist[2], Some(1));
    assert_eq!(res.dist[3], None);
    assert_eq!(res.visited, 3);
    assert_eq!(res.total, 2);
    assert_eq!(res.avg, Ratio { num: 2, den: 2 });
}

#[test]
fn complete_component_average_is_one() {
    let mut data = Vec::new();
    for name in ["a", "b", "c", "d", "e", "f"] {
        data.push(record(name, "United States", 1));
    }
    let graph = create_graph(&data).unwrap();
    for s in 0..6 {
        let res = bfs_from(&graph, s);
        assert_eq!(res.visited, 6);
        assert_eq!(res.total, 5);
        assert_eq!(res.avg, Ratio { num: 5, den: 5 });
        assert_eq!(res.avg.num as f32 / res.avg.den as f32, 1.0);
    }
}

#[test]
fn isolated_node_average_is_zero() {
    let data = vec![
        record("a", "United States", 1),
        record("b", "United States", 1),
        record("c", "Canada", 1),
    ];
    let graph = create_graph(&data).unwrap();
    let res = bfs_distance(&graph, "c").unwrap();
    assert_eq!(res.visited, 1);
    assert_eq!(res.total, 0);
    assert_eq!(res.avg, Ratio { num: 0, den: 1 });
    assert_eq!(res.avg.num as f32 / res.avg.den as f32, 0.0);
}

#[test]
fn aggregator_average_followers_is_exact() {
    let data = vec![
        record("a", "United States", 1),
        record("b", "United States", 2),
        record("c", "Canada", 3),
        record("d", "Canada", 4),
        record("e", "United States", 5),
        record("f", "United States", 6),
        record("g", "Canada", 7),
    ];
    let stats = analyze(&data).unwrap();
    assert_eq!(stats.len(), 2);
    assert_eq!(stats[0].country, "United States");
    assert_eq!(stats[0].followers_sum, 14);
    assert_eq!(stats[0].followers_count, 4);
    assert_eq!(average_followers(&stats[0]), 3.5);
    assert_eq!(stats[1].country, "Canada");
    assert_eq!(stats[1].followers_sum, 14);
    assert_eq!(stats[1].followers_count, 3);
}

#[test]
fn three_accounts_scenario() {
    let data = vec![
        record("a", "US", 1),
        record("b", "US", 1),
        record("c", "CA", 1),
    ];
    let graph = create_graph(&data).unwrap();
    let from_a = bfs_distance(&graph, "a").unwrap();
    assert_eq!(from_a.avg, Ratio { num: 1, den: 1 });
    assert!(graph.has_edge("a", "b"));
    assert!(graph.adj[2].is_empty());
    let stats = aggregate(&data, &graph).unwrap();
    assert_eq!(stats.len(), 2);
    assert_eq!(stats[0].country, "US");
    assert_eq!(average_distance(&stats[0]), 1.0);
    assert_eq!(average_followers(&stats[0]), 1.0);
    assert_eq!(stats[1].country, "CA");
    assert_eq!(average_distance(&stats[1]), 0.0);
    assert_eq!(average_followers(&stats[1]), 1.0);
}

#[test]
fn single_record_scenario() {
    let data = vec![record("a", "US", 5)];
    let stats = analyze(&data).unwrap();
    assert_eq!(stats.len(), 1);
    assert_eq!(stats[0].country, "US");
    assert_eq!(average_distance(&stats[0]), 0.0);
    assert_eq!(average_followers(&stats[0]), 5.0);
}

#[test]
fn duplicate_username_scenario() {
    let data = vec![record("a", "US", 1), record("a", "CA", 1)];
    assert_eq!(
        create_graph(&data).unwrap_err(),
        AnalysisError::DuplicateUsername
    );
    assert_eq!(analyze(&data).unwrap_err(), AnalysisError::DuplicateUsername);
}

#[test]
fn empty_dataset_is_rejected() {
    let data: Vec<AccountRecord> = Vec::new();
    assert_eq!(analyze(&data).unwrap_err(), AnalysisError::EmptyDataset);
}

#[test]
fn unknown_start_node_is_rejected() {
    let data = vec![record("a", "US", 1)];
    let graph = create_graph(&data).unwrap();
    assert_eq!(
        bfs_distance(&graph, "nobody").unwrap_err(),
        AnalysisError::UnknownNode
    );
}

#[test]
fn error_descriptions() {
    assert_eq!(AnalysisError::EmptyDataset.describe(), "empty dataset");
    assert_eq!(
        AnalysisError::DuplicateUsername.describe(),
        "duplicate username"
    );
    assert_eq!(AnalysisError::UnknownNode.describe(), "unknown node");
}
