use atlas::{AtlasError, Coordinate, Edge, Feature, Node};

fn sample() -> Node {
    Node::new(
        7,
        vec![
            Feature::new("name", "chair"),
            Feature::new("type", "furniture"),
            Feature::new("name", "stool"),
        ],
        Some(Coordinate::new(1.0, 2.0, 3.0)),
    )
}

#[test]
fn new_node_is_detached() {
    let n = sample();
    assert_eq!(n.id, 7);
    assert_eq!(n.pid, None);
    assert!(n.children.is_empty());
    assert!(n.edges.is_empty());
    assert_eq!(n.features.len(), 3);
    assert_eq!(n.coordinates, Some(Coordinate::new(1.0, 2.0, 3.0)));
}

#[test]
fn feature_and_edge_hold_what_they_were_given() {
    let f = Feature::new("k", "v");
    assert_eq!(f.key, "k");
    assert_eq!(f.value, "v");
    assert!(f.same(&Feature::new("k", "v")));
    assert!(!f.same(&Feature::new("k", "w")));
    assert!(!f.same(&Feature::new("j", "v")));
    let e = Edge::new(1, 2, "next to");
    assert_eq!((e.src, e.dst), (1, 2));
    assert_eq!(e.desc, "next to");
}

#[test]
fn has_feature_goes_by_key() {
    let n = sample();
    assert!(n.has_feature("name"));
    assert!(n.has_feature("type"));
    assert!(!n.has_feature("chair"));
    assert!(!n.has_feature(""));
    assert!(n.has_features(&["name", "type"]));
    assert!(!n.has_features(&["name", "colour"]));
    assert!(n.has_features(&[]));
}

#[test]
fn match_feature_goes_by_key_and_value() {
    let n = sample();
    assert!(n.match_feature(&Feature::new("name", "chair")));
    assert!(n.match_feature(&Feature::new("name", "stool")));
    assert!(!n.match_feature(&Feature::new("name", "table")));
    assert!(!n.match_feature(&Feature::new("chair", "name")));
    assert!(n.match_features(&[
        &Feature::new("type", "furniture"),
        &Feature::new("name", "stool")
    ]));
    assert!(!n.match_features(&[
        &Feature::new("type", "furniture"),
        &Feature::new("name", "bench")
    ]));
}

#[test]
fn feature_gives_the_first_value_under_a_key() {
    let n = sample();
    assert_eq!(n.feature("name").unwrap(), "chair");
    assert_eq!(n.feature("type").unwrap(), "furniture");
    match n.feature("colour") {
        Err(AtlasError::FeatureNotFound(key)) => assert_eq!(key, "colour"),
        other => panic!("expected FeatureNotFound, got {:?}", other),
    }
}

#[test]
fn set_feature_overwrites_the_first_or_appends() {
    let mut n = sample();
    n.set_feature(Feature::new("name", "bench"));
    assert_eq!(n.features.len(), 3);
    assert_eq!(n.features[0].value, "bench");
    assert_eq!(n.features[2].value, "stool");
    n.set_feature(Feature::new("colour", "red"));
    assert_eq!(n.features.len(), 4);
    assert_eq!(n.features[3].key, "colour");
    assert_eq!(n.features[3].value, "red");
}

#[test]
fn set_edge_overwrites_the_description_or_appends() {
    let mut n = sample();
    n.set_edge(Edge::new(7, 1, "a"));
    n.set_edge(Edge::new(7, 2, "b"));
    n.set_edge(Edge::new(9, 1, "c"));
    assert_eq!(n.edges.len(), 2);
    assert_eq!((n.edges[0].src, n.edges[0].dst), (7, 1));
    assert_eq!(n.edges[0].desc, "c");
    assert_eq!(n.edges[1].desc, "b");
}

#[test]
fn merge_folds_features_and_edges_and_keeps_the_rest() {
    let mut n = sample();
    n.pid = Some(3);
    n.children = vec![1, 2];
    n.set_edge(Edge::new(7, 1, "old"));
    n.set_edge(Edge::new(7, 5, "kept"));

    let mut other = Node::new(
        7,
        vec![
            Feature::new("type", "seat"),
            Feature::new("colour", "red"),
        ],
        None,
    );
    other.pid = Some(99);
    other.children = vec![42];
    other.set_edge(Edge::new(7, 1, "new"));
    other.set_edge(Edge::new(7, 8, "added"));

    n.merge(&other);
    assert_eq!(n.id, 7);
    assert_eq!(n.pid, Some(3));
    assert_eq!(n.children, vec![1, 2]);
    assert_eq!(n.coordinates, Some(Coordinate::new(1.0, 2.0, 3.0)));
    let features: Vec<(&str, &str)> = n
        .features
        .iter()
        .map(|f| (f.key.as_str(), f.value.as_str()))
        .collect();
    assert_eq!(
        features,
        [
            ("name", "chair"),
            ("type", "seat"),
            ("name", "stool"),
            ("colour", "red")
        ]
    );
    let edges: Vec<(usize, &str)> = n.edges.iter().map(|e| (e.dst, e.desc.as_str())).collect();
    assert_eq!(edges, [(1, "new"), (5, "kept"), (8, "added")]);
}

#[test]
fn add_child_adds_once() {
    let mut n = sample();
    n.add_child(4);
    n.add_child(5);
    n.add_child(4);
    assert_eq!(n.children, vec![4, 5]);
}

#[test]
fn remove_child_moves_the_last_into_the_gap() {
    let mut n = sample();
    n.children = vec![1, 2, 3, 4];
    assert!(n.remove_child(2).is_ok());
    assert_eq!(n.children, vec![1, 4, 3]);
    assert!(matches!(n.remove_child(2), Err(AtlasError::NodeNotFound)));
    assert_eq!(n.children, vec![1, 4, 3]);
    assert!(n.remove_child(3).is_ok());
    assert_eq!(n.children, vec![1, 4]);
}

#[test]
fn edge_filters_keep_order() {
    let mut n = sample();
    for dst in [1, 2, 1, 3, 2] {
        n.edges.push(Edge::new(7, dst, "e"));
    }
    let mut a = n.clone();
    a.drop_edges_to(1);
    assert_eq!(a.edges.iter().map(|e| e.dst).collect::<Vec<_>>(), [2, 3, 2]);
    let mut b = n.clone();
    b.keep_edges_within(&[3, 1]);
    assert_eq!(b.edges.iter().map(|e| e.dst).collect::<Vec<_>>(), [1, 1, 3]);
    let mut c = n.clone();
    c.keep_edges_within(&[]);
    assert!(c.edges.is_empty());
}

#[test]
fn clone_copies_everything() {
    let mut n = sample();
    n.pid = Some(1);
    n.children = vec![5, 6];
    n.edges.push(Edge::new(7, 8, "e"));
    let m = n.clone();
    assert_eq!(m.id, n.id);
    assert_eq!(m.pid, n.pid);
    assert_eq!(m.children, n.children);
    assert_eq!(m.features, n.features);
    assert_eq!(m.coordinates, n.coordinates);
    assert_eq!(m.edges.len(), 1);
    assert_eq!(m.edges[0].desc, "e");
}
