//! Hubs, clones, coupling and summaries.

use codegraph::graph::clones::{find_clone_groups, DisplayRow, FingerprintRow};
use codegraph::graph::coupling::{calculate_file_coupling, CouplingEdge, CouplingNode};
use codegraph::graph::hub_nodes::{find_hub_nodes, HubCandidate, InDegree, OutDegree};
use codegraph::graph::search::project_summary;

fn candidate(id: &str, name: &str) -> HubCandidate {
    HubCandidate {
        node_id: id.to_string(),
        name: name.to_string(),
        node_type: "function".to_string(),
        file_path: "a.rs".to_string(),
    }
}

#[test]
fn hubs_are_listed_by_falling_degree() {
    let ins = vec![
        InDegree { to_name: "b".to_string(), to_type: "function".to_string(), count: 3 },
        InDegree { to_name: "b".to_string(), to_type: "struct".to_string(), count: 9 },
    ];
    let outs = vec![
        OutDegree { from_id: "1".to_string(), count: 1 },
        OutDegree { from_id: "2".to_string(), count: 2 },
        OutDegree { from_id: "3".to_string(), count: 1 },
    ];
    let nodes = vec![candidate("1", "a"), candidate("2", "b"), candidate("3", "c")];
    let hubs = find_hub_nodes(&ins, &outs, &nodes, 10);
    let names: Vec<&str> = hubs.iter().map(|h| h.name.as_str()).collect();
    assert_eq!(names, vec!["b", "a", "c"]);
    assert_eq!((hubs[0].in_degree, hubs[0].out_degree, hubs[0].total_degree), (3, 2, 5));
    assert_eq!(find_hub_nodes(&ins, &outs, &nodes, 1).len(), 1);
    assert!(find_hub_nodes(&ins, &outs, &vec![], 1).is_empty());
}

fn print(qn: &str, hash: &str, edges: i64, name_edges: i64) -> FingerprintRow {
    FingerprintRow {
        qualified_name: qn.to_string(),
        file_path: "a.rs".to_string(),
        node_type: "function".to_string(),
        hash: hash.to_string(),
        edge_count: edges,
        name_edge_count: name_edges,
    }
}

#[test]
fn symbols_of_one_structure_are_clones() {
    let prints = vec![
        print("a::x", "h1", 3, 2),
        print("a::y", "h1", 3, 2),
        print("a::z", "h2", 3, 2),
        print("a::tiny", "h1", 1, 0),
        print("a::gone", "", 3, 2),
    ];
    let rows = vec![DisplayRow {
        name: "x".to_string(),
        qualified_name: "a::x".to_string(),
        file_path: "a.rs".to_string(),
        start_line: Some(7),
    }];
    let groups = find_clone_groups(&rows, &prints, 2);
    assert_eq!(groups.len(), 1);
    assert_eq!(groups[0].fingerprint, "h1");
    let names: Vec<&str> = groups[0].members.iter().map(|m| m.qualified_name.as_str()).collect();
    assert_eq!(names, vec!["a::y", "a::x"]);
    assert_eq!(groups[0].members[0].name, "");
    assert_eq!(groups[0].members[1].name, "x");
    assert_eq!(groups[0].members[1].start_line, Some(7));
    assert!(find_clone_groups(&rows, &prints, 5).is_empty());
    assert!(find_clone_groups(&rows, &prints, usize::MAX).is_empty());
}

fn coupled(id: &str, name: &str, file: &str) -> CouplingNode {
    CouplingNode {
        node_id: Some(id.to_string()),
        name: Some(name.to_string()),
        node_type: Some("function".to_string()),
        file_path: Some(file.to_string()),
    }
}

fn reference(from: &str, to: &str) -> CouplingEdge {
    CouplingEdge {
        from_id: Some(from.to_string()),
        to_name: Some(to.to_string()),
        to_type: Some("function".to_string()),
    }
}

#[test]
fn files_are_coupled_by_the_files_across() {
    let nodes = vec![coupled("1", "f", "a.rs"), coupled("2", "g", "b.rs"), coupled("3", "h", "b.rs")];
    let edges = vec![reference("1", "g"), reference("1", "h"), reference("2", "h"), reference("3", "nowhere")];
    let report = calculate_file_coupling(&nodes, &edges, 10);
    assert_eq!(report.len(), 2);
    let a = report.iter().find(|c| c.file_path == "a.rs").unwrap();
    let b = report.iter().find(|c| c.file_path == "b.rs").unwrap();
    assert_eq!((a.afferent, a.efferent, a.node_count), (0, 1, 1));
    assert_eq!((b.afferent, b.efferent, b.node_count), (1, 0, 2));
    assert_eq!(calculate_file_coupling(&nodes, &edges, 1).len(), 1);
}

#[test]
fn a_file_that_refers_twice_is_one_dependent() {
    let nodes = vec![coupled("1", "f1", "a.rs"), coupled("2", "f2", "a.rs"), coupled("3", "g", "b.rs")];
    let edges = vec![reference("1", "g"), reference("2", "g")];
    let report = calculate_file_coupling(&nodes, &edges, 2);
    let rows: Vec<(&str, i64, i64)> =
        report.iter().map(|c| (c.file_path.as_str(), c.afferent, c.efferent)).collect();
    assert_eq!(rows, vec![("a.rs", 0, 1), ("b.rs", 1, 0)]);
}

#[test]
fn a_summary_leaves_rows_without_a_label_out() {
    let rows = vec![("function".to_string(), 3), (String::new(), 9)];
    let summary = project_summary(&rows, &vec![("rust".to_string(), 2)], &vec![]);
    assert_eq!(summary.node_types, vec![("function".to_string(), 3)]);
    assert_eq!(summary.languages, vec![("rust".to_string(), 2)]);
    assert!(summary.edge_types.is_empty());
}
