use atlas::parse::{ConceptGraph, ConceptGraphEdge, ConceptGraphEdgeMeta, ConceptGraphNode};
use atlas::{AtlasError, Coordinate, SceneGraph};

fn create_test_graph() -> ConceptGraph {
    // Simple fixed 10 points pointcloud
    let pcd_points: Vec<Coordinate> = (0..10).map(|_| Coordinate::new(0.1, 0.1, 0.1)).collect();
    let pcd_colors: Vec<String> = (0..10)
        .map(|_| format!("{},{},{}", 0.1_f32, 0.1_f32, 0.1_f32))
        .collect();

    // Create 5 nodes
    let nodes: Vec<ConceptGraphNode> = (0..5)
        .map(|i| ConceptGraphNode {
            node_id: i,
            label: vec![format!("Node_{i}")],
            label_affordance: vec![format!("Affordance_{i}")],
            pcd_points: pcd_points.clone(),
            pcd_colors: pcd_colors.clone(),
        })
        .collect();

    // Fully connect all nodes (undirected)
    let mut edges = Vec::new();
    for i in 0..nodes.len() {
        for j in 0..nodes.len() {
            edges.push(ConceptGraphEdge(
                i,
                j,
                ConceptGraphEdgeMeta {
                    desc: "connected".into(),
                },
            ));
        }
    }

    ConceptGraph { nodes, edges }
}

#[test]
fn parse_from_concept_graph() -> Result<(), AtlasError> {
    let cg = create_test_graph();
    assert!(cg.fits());
    let sg = SceneGraph::from_concept_graph(cg)?;
    assert_eq!(sg.layers.len(), 2);
    assert_eq!(sg.layer(0)?.nodes.len(), 50); // 5 nodes * 10 points each
    assert_eq!(sg.layer(1)?.nodes.len(), 5);
    for node in &sg.layer(1)?.nodes {
        assert_eq!(node.features.len(), 2); // 1 label + 1 affordance
        assert_eq!(node.edges.len(), 5); // fully connected graph with 5 nodes
        assert_eq!(node.children.len(), 10); // each node has 10 pointcloud children
    }
    Ok(())
}

#[test]
fn concept_graph_ids_follow_creation_order() -> Result<(), AtlasError> {
    let cg = ConceptGraph {
        nodes: vec![
            ConceptGraphNode {
                node_id: 70,
                label: vec!["chair".to_string()],
                label_affordance: vec!["sit".to_string()],
                pcd_points: vec![Coordinate::new(1.0, 2.0, 3.0), Coordinate::new(4.0, 5.0, 6.0)],
                pcd_colors: vec!["1,0,0".to_string(), "0,1,0".to_string()],
            },
            ConceptGraphNode {
                node_id: 30,
                label: vec!["table".to_string()],
                label_affordance: vec![],
                // three points but one colour: only the first point counts
                pcd_points: vec![
                    Coordinate::new(7.0, 8.0, 9.0),
                    Coordinate::new(0.0, 0.0, 0.0),
                    Coordinate::new(0.0, 0.0, 0.0),
                ],
                pcd_colors: vec!["0,0,1".to_string()],
            },
        ],
        edges: vec![ConceptGraphEdge(
            30,
            70,
            ConceptGraphEdgeMeta {
                desc: "next to".to_string(),
            },
        )],
    };
    let sg = SceneGraph::from_concept_graph(cg)?;
    assert_eq!(sg.node_counter, 5);

    // chair: node 0 with points 1 and 2; table: node 3 with point 4
    let upper = sg.layer(1)?;
    assert_eq!(upper.nodes.iter().map(|n| n.id).collect::<Vec<_>>(), [0, 3]);
    assert_eq!(upper.nodes[0].children, vec![1, 2]);
    assert_eq!(upper.nodes[1].children, vec![4]);
    assert_eq!(upper.nodes[0].feature("chair").unwrap(), "label");
    assert_eq!(upper.nodes[0].feature("sit").unwrap(), "affordance");
    assert_eq!(upper.nodes[1].feature("table").unwrap(), "label");
    assert!(upper.nodes[0].coordinates.is_none());

    let lower = sg.layer(0)?;
    assert_eq!(lower.nodes.iter().map(|n| n.id).collect::<Vec<_>>(), [1, 2, 4]);
    assert_eq!(lower.nodes[0].pid, Some(0));
    assert_eq!(lower.nodes[1].pid, Some(0));
    assert_eq!(lower.nodes[2].pid, Some(3));
    assert_eq!(lower.nodes[1].coordinates, Some(Coordinate::new(4.0, 5.0, 6.0)));
    assert_eq!(lower.nodes[1].feature("color").unwrap(), "0,1,0");
    assert_eq!(lower.nodes[2].feature("color").unwrap(), "0,0,1");

    // the relation 30 -> 70 is an edge from the table's node to the chair's
    assert_eq!(upper.nodes[0].edges.len(), 0);
    assert_eq!(upper.nodes[1].edges.len(), 1);
    assert_eq!(upper.nodes[1].edges[0].src, 3);
    assert_eq!(upper.nodes[1].edges[0].dst, 0);
    assert_eq!(upper.nodes[1].edges[0].desc, "next to");
    Ok(())
}

#[test]
fn concept_graph_with_unknown_endpoint_is_rejected() {
    let node = |id: usize| ConceptGraphNode {
        node_id: id,
        label: vec![],
        label_affordance: vec![],
        pcd_points: vec![],
        pcd_colors: vec![],
    };
    let relation = |a: usize, b: usize| {
        ConceptGraphEdge(
            a,
            b,
            ConceptGraphEdgeMeta {
                desc: "r".to_string(),
            },
        )
    };
    let unknown_dst = ConceptGraph {
        nodes: vec![node(1), node(2)],
        edges: vec![relation(1, 2), relation(2, 9)],
    };
    assert!(matches!(
        SceneGraph::from_concept_graph(unknown_dst),
        Err(AtlasError::NodeNotFound)
    ));
    let unknown_src = ConceptGraph {
        nodes: vec![node(1)],
        edges: vec![relation(5, 1)],
    };
    assert!(matches!(
        SceneGraph::from_concept_graph(unknown_src),
        Err(AtlasError::NodeNotFound)
    ));
}

#[test]
fn concept_graph_later_object_wins_a_shared_id() -> Result<(), AtlasError> {
    let node = |id: usize| ConceptGraphNode {
        node_id: id,
        label: vec![],
        label_affordance: vec![],
        pcd_points: vec![],
        pcd_colors: vec![],
    };
    let cg = ConceptGraph {
        nodes: vec![node(4), node(4)],
        edges: vec![ConceptGraphEdge(
            4,
            4,
            ConceptGraphEdgeMeta {
                desc: "self".to_string(),
            },
        )],
    };
    let sg = SceneGraph::from_concept_graph(cg)?;
    let upper = sg.layer(1)?;
    assert_eq!(upper.nodes[0].edges.len(), 0);
    assert_eq!(upper.nodes[1].edges.len(), 1);
    assert_eq!(upper.nodes[1].edges[0].src, 1);
    assert_eq!(upper.nodes[1].edges[0].dst, 1);
    Ok(())
}

#[test]
fn empty_concept_graph_gives_two_empty_layers() -> Result<(), AtlasError> {
    let cg = ConceptGraph {
        nodes: vec![],
        edges: vec![],
    };
    assert!(cg.fits());
    let sg = SceneGraph::from_concept_graph(cg)?;
    assert_eq!(sg.layers.len(), 2);
    assert_eq!(sg.layer(0)?.nodes.len(), 0);
    assert_eq!(sg.layer(1)?.nodes.len(), 0);
    assert_eq!(sg.node_counter, 0);
    Ok(())
}
