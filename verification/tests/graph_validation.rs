use course_graph::graph::{Card, CourseGraph, GraphError};

fn card(name: &str, deps: &[&str]) -> Card {
    Card {
        name: name.to_string(),
        dependencies: deps.iter().map(|d| d.to_string()).collect(),
    }
}

#[test]
fn accepts_a_valid_graph_and_keeps_its_source() {
    let g = CourseGraph::new(
        "a\nb: a\n".to_string(),
        vec![card("a", &[]), card("b", &["a"])],
    )
    .expect("valid graph");
    assert_eq!(g.len(), 2);
    assert_eq!(g.get_source(), "a\nb: a\n");
    let names: Vec<String> = g.card_names().clone();
    assert_eq!(names, vec!["a".to_string(), "b".to_string()]);
}

#[test]
fn rejects_duplicate_card_names() {
    let r = CourseGraph::new(String::new(), vec![card("a", &[]), card("a", &[])]);
    assert!(matches!(r, Err(GraphError::DuplicateCardName)));
}

#[test]
fn rejects_unknown_dependencies() {
    let r = CourseGraph::new(String::new(), vec![card("a", &["ghost"])]);
    assert!(matches!(r, Err(GraphError::UnknownDependency)));
}

#[test]
fn rejects_repeated_dependencies() {
    let r = CourseGraph::new(
        String::new(),
        vec![card("a", &[]), card("b", &["a", "a"])],
    );
    assert!(matches!(r, Err(GraphError::DuplicateDependency)));
}

#[test]
fn rejects_a_two_card_cycle() {
    let r = CourseGraph::new(
        String::new(),
        vec![card("a", &["b"]), card("b", &["a"])],
    );
    assert!(matches!(r, Err(GraphError::Cycle)));
}

#[test]
fn rejects_a_self_cycle() {
    let r = CourseGraph::new(String::new(), vec![card("a", &["a"])]);
    assert!(matches!(r, Err(GraphError::Cycle)));
}

#[test]
fn accepts_a_diamond_and_inverts_edges() {
    let g = CourseGraph::new(
        String::new(),
        vec![
            card("root", &[]),
            card("left", &["root"]),
            card("right", &["root"]),
            card("goal", &["left", "right"]),
        ],
    )
    .expect("diamond is acyclic");

    let deps = g.dependencies_of(&"goal".to_string()).expect("known card");
    assert_eq!(deps, vec!["left".to_string(), "right".to_string()]);

    let mut dependents = g.dependents_of(&"root".to_string()).expect("known card");
    dependents.sort();
    assert_eq!(dependents, vec!["left".to_string(), "right".to_string()]);

    let nodes = g.cards();
    assert_eq!(nodes.len(), 4);
    assert!(nodes[0].dependencies.is_empty());
    assert_eq!(nodes[3].dependencies.len(), 2);
}

#[test]
fn unknown_card_queries_are_refused() {
    let g = CourseGraph::new(String::new(), vec![card("a", &[])]).expect("valid graph");
    assert!(matches!(
        g.dependencies_of(&"missing".to_string()),
        Err(GraphError::UnknownCard)
    ));
    assert!(matches!(
        g.dependents_of(&"missing".to_string()),
        Err(GraphError::UnknownCard)
    ));
    assert_eq!(g.find_index(&"missing".to_string()), None);
    assert_eq!(g.find_index(&"a".to_string()), Some(0));
}

#[test]
fn empty_input_builds_an_empty_graph() {
    let g = CourseGraph::new(String::new(), vec![]).expect("empty graph is valid");
    assert_eq!(g.len(), 0);
    assert!(g.cards().is_empty());
}
