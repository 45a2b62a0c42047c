use atlas::{AtlasError, Coordinate, Feature, Node, SceneGraph};

/// Three layers: 0 holds a, b, c; 1 holds p (parent of a, b) and q (parent
/// of c); 2 holds r (parent of p and q).
fn family() -> (SceneGraph, [usize; 6]) {
    let mut sg = SceneGraph::default();
    let a = sg.new_node(Vec::new());
    let b = sg.new_node(Vec::new());
    let c = sg.new_node(Vec::new());
    let p = sg.new_node(Vec::new());
    let q = sg.new_node(Vec::new());
    let r = sg.new_node(Vec::new());
    let ids = [a.id, b.id, c.id, p.id, q.id, r.id];
    let l = sg.new_layer();
    l.push_node(a);
    l.push_node(b);
    l.push_node(c);
    let l = sg.new_layer();
    l.push_node(p);
    l.push_node(q);
    let l = sg.new_layer();
    l.push_node(r);
    let [a, b, c, p, q, r] = ids;
    sg.nest(a).under(p).unwrap();
    sg.nest(b).under(p).unwrap();
    sg.nest(c).under(q).unwrap();
    sg.nest(p).under(r).unwrap();
    sg.nest(q).under(r).unwrap();
    (sg, ids)
}

#[test]
fn ids_are_fresh_and_increase() {
    let mut sg = SceneGraph::default();
    let mut last = None;
    for i in 0..20 {
        let node = if i % 3 == 0 {
            sg.new_coordinates(Coordinate::new(0.0, 0.0, 0.0), Vec::new())
        } else {
            sg.new_node(vec![Feature::new("i", "x")])
        };
        assert_eq!(node.id, i);
        assert_eq!(node.pid, None);
        assert!(node.children.is_empty() && node.edges.is_empty());
        assert_eq!(node.coordinates.is_some(), i % 3 == 0);
        if let Some(before) = last {
            assert!(node.id > before);
        }
        last = Some(node.id);
    }
    // creating nodes places none
    assert_eq!(sg.layers.len(), 0);
    assert_eq!(sg.node_counter, 20);
}

#[test]
fn ids_are_not_reused_after_a_deletion() {
    let (mut sg, [a, _, _, _, _, r]) = family();
    sg.del_node(a).unwrap();
    let fresh = sg.new_node(Vec::new());
    assert_eq!(fresh.id, r + 1);
}

#[test]
fn layers_are_found_by_index() {
    let mut sg = SceneGraph::default();
    assert!(matches!(sg.top_layer(), Err(AtlasError::LayerOutOfBounds(0, 0))));
    assert!(matches!(sg.top_layer_mut(), Err(AtlasError::LayerOutOfBounds(0, 0))));
    assert!(matches!(sg.layer(0), Err(AtlasError::LayerOutOfBounds(0, 0))));
    sg.new_layer().push_node(Node::new(0, Vec::new(), None));
    sg.new_layer();
    assert_eq!(sg.layers.len(), 2);
    assert_eq!(sg.layer(0).unwrap().nodes.len(), 1);
    assert_eq!(sg.layer(1).unwrap().nodes.len(), 0);
    assert_eq!(sg.top_layer().unwrap().nodes.len(), 0);
    assert!(matches!(sg.layer(2), Err(AtlasError::LayerOutOfBounds(2, 2))));
    assert!(matches!(sg.layer_mut(5), Err(AtlasError::LayerOutOfBounds(5, 2))));
    sg.top_layer_mut().unwrap().push_node(Node::new(1, Vec::new(), None));
    assert_eq!(sg.layer_of(1).unwrap(), 1);
    assert_eq!(sg.layer_of(0).unwrap(), 0);
    assert!(matches!(sg.layer_of(2), Err(AtlasError::NodeNotFound)));
    assert_eq!(sg.locate(1), Some((1, 0)));
    assert_eq!(sg.locate(2), None);
    assert!(matches!(sg.node(2), Err(AtlasError::NodeNotFound)));
    assert!(matches!(sg.node_mut(2), Err(AtlasError::NodeNotFound)));
    sg.node_mut(1).unwrap().set_feature(Feature::new("k", "v"));
    assert_eq!(sg.node(1).unwrap().feature("k").unwrap(), "v");
}

#[test]
fn nesting_needs_adjacent_layers() {
    let (mut sg, [a, b, _, p, q, r]) = family();
    let before = |sg: &SceneGraph, id: usize| {
        let n = sg.node(id).unwrap();
        (n.pid, n.children.clone())
    };

    // same layer, two layers up, downwards, onto itself
    for (nestee, nester, expected) in [
        (a, b, (0, 0)),
        (a, r, (0, 2)),
        (p, a, (1, 0)),
        (r, a, (2, 0)),
        (a, a, (0, 0)),
    ] {
        let was = (before(&sg, nestee), before(&sg, nester));
        match sg.nest(nestee).under(nester) {
            Err(AtlasError::InvalidLayersForNesting(low, high)) => {
                assert_eq!((low, high), expected)
            }
            other => panic!("expected InvalidLayersForNesting, got {:?}", other.map(|_| ())),
        }
        assert_eq!(was, (before(&sg, nestee), before(&sg, nester)));
    }

    // a node that does not exist
    assert!(matches!(sg.nest(99).under(p), Err(AtlasError::NodeNotFound)));
    assert!(matches!(sg.nest(a).under(99), Err(AtlasError::NodeNotFound)));

    // adjacent layers: it succeeds, and a second time changes nothing more
    assert!(sg.nest(a).under(q).is_ok());
    assert_eq!(sg.node(a).unwrap().pid, Some(q));
    assert_eq!(sg.node(p).unwrap().children, vec![b]);
    assert_eq!(sg.node(q).unwrap().children.len(), 2);
    assert!(sg.node(q).unwrap().children.contains(&a));
    assert!(sg.nest(a).under(q).is_ok());
    assert_eq!(sg.node(a).unwrap().pid, Some(q));
    assert_eq!(sg.node(q).unwrap().children.len(), 2);
    assert!(sg.nest_under(a, p).is_ok());
    assert_eq!(sg.node(a).unwrap().pid, Some(p));
    assert_eq!(sg.node(p).unwrap().children, vec![b, a]);
}

#[test]
fn nesting_fails_on_a_parent_that_is_lost() {
    let (mut sg, [a, _, _, p, q, _]) = family();
    // p forgets a, though a still names p
    sg.node_mut(p).unwrap().children = Vec::new();
    assert!(matches!(sg.nest(a).under(q), Err(AtlasError::NodeNotFound)));
    // nothing has changed
    assert_eq!(sg.node(a).unwrap().pid, Some(p));
    assert!(!sg.node(q).unwrap().children.contains(&a));
    // nor where the parent is not there at all
    sg.node_mut(a).unwrap().pid = Some(99);
    assert!(matches!(sg.nest(a).under(q), Err(AtlasError::NodeNotFound)));
    assert_eq!(sg.node(a).unwrap().pid, Some(99));
    assert!(!sg.node(q).unwrap().children.contains(&a));
}

#[test]
fn deleting_a_node_takes_all_that_descends_from_it() {
    let (mut sg, [a, b, c, p, q, r]) = family();
    sg.layer_mut(0).unwrap().add_edge(c, a, "sees").unwrap();
    sg.layer_mut(1).unwrap().add_edge(q, p, "beside").unwrap();

    sg.del_node(p).unwrap();
    for gone in [p, a, b] {
        assert!(matches!(sg.node(gone), Err(AtlasError::NodeNotFound)));
    }
    for kept in [c, q, r] {
        assert!(sg.node(kept).is_ok());
    }
    assert_eq!(sg.node(r).unwrap().children, vec![q]);
    assert!(sg.node(c).unwrap().edges.is_empty());
    assert!(sg.node(q).unwrap().edges.is_empty());
    assert_eq!(sg.layers.len(), 3);

    sg.del_node(r).unwrap();
    for gone in [a, b, c, p, q, r] {
        assert!(matches!(sg.node(gone), Err(AtlasError::NodeNotFound)));
    }
    assert_eq!(sg.layers.len(), 3);
    assert!(matches!(sg.del_node(r), Err(AtlasError::NodeNotFound)));
}

#[test]
fn deleting_a_leaf_takes_only_the_leaf() {
    let (mut sg, [a, b, c, p, q, r]) = family();
    sg.del_node(a).unwrap();
    assert!(sg.node(a).is_err());
    assert_eq!(sg.node(p).unwrap().children, vec![b]);
    for kept in [b, c, p, q, r] {
        assert!(sg.node(kept).is_ok());
    }
}

#[test]
fn a_failed_deletion_keeps_what_it_has_done() {
    let (mut sg, [a, b, c, p, _, r]) = family();
    // p lists a child that does not exist, between a and b
    sg.node_mut(p).unwrap().children = vec![a, 99, b];
    assert!(matches!(sg.del_node(p), Err(AtlasError::NodeNotFound)));
    assert!(sg.node(p).is_err());
    assert!(sg.node(a).is_err());
    assert!(sg.node(b).is_ok());
    assert!(sg.node(c).is_ok());
    assert!(!sg.node(r).unwrap().children.contains(&p));
}

#[test]
fn deletion_fails_on_a_parent_that_is_lost() {
    let (mut sg, [a, _, _, p, _, r]) = family();
    // the parent does not list the node
    sg.node_mut(p).unwrap().children = Vec::new();
    assert!(matches!(sg.del_node(a), Err(AtlasError::NodeNotFound)));
    assert!(sg.node(a).is_ok());
    // the parent is not in the layer above
    sg.node_mut(a).unwrap().pid = Some(99);
    assert!(matches!(sg.del_node(a), Err(AtlasError::NodeNotFound)));
    // there is no layer above
    sg.node_mut(r).unwrap().pid = Some(p);
    assert!(matches!(sg.del_node(r), Err(AtlasError::LayerOutOfBounds(3, 3))));
    assert!(sg.node(r).is_ok());
}

#[test]
fn children_of_a_bottom_node_cannot_be_deleted() {
    let (mut sg, [a, b, _, p, _, _]) = family();
    sg.node_mut(a).unwrap().children = vec![b];
    assert!(matches!(
        sg.del_node(a),
        Err(AtlasError::LayerOutOfBounds(usize::MAX, 3))
    ));
    assert!(sg.node(a).is_err());
    assert!(sg.node(b).is_ok());
    assert_eq!(sg.node(p).unwrap().children, vec![b]);
}

#[test]
fn graph_queries_group_by_layer() {
    let mut sg = SceneGraph::default();
    let a = sg.new_node(vec![Feature::new("kind", "point")]);
    let b = sg.new_node(vec![Feature::new("kind", "point"), Feature::new("hot", "yes")]);
    let p = sg.new_node(vec![Feature::new("kind", "object")]);
    let (a, b, p) = {
        let ids = (a.id, b.id, p.id);
        let l = sg.new_layer();
        l.push_node(a);
        l.push_node(b);
        sg.new_layer().push_node(p);
        ids
    };
    sg.layer_mut(0).unwrap().add_edge(a, b, "near").unwrap();
    sg.layer_mut(0).unwrap().add_edge(b, a, "far").unwrap();
    sg.layer_mut(1).unwrap().add_edge(p, p, "near").unwrap();

    let having = sg.nodes_having(&["kind"]);
    assert_eq!(having.len(), 2);
    assert_eq!(having[0].iter().map(|n| n.id).collect::<Vec<_>>(), [a, b]);
    assert_eq!(having[1].iter().map(|n| n.id).collect::<Vec<_>>(), [p]);
    let having = sg.nodes_having(&["kind", "hot"]);
    assert_eq!(having[0].iter().map(|n| n.id).collect::<Vec<_>>(), [b]);
    assert!(having[1].is_empty());
    let matching = sg.nodes_matching(&[&Feature::new("kind", "object")]);
    assert!(matching[0].is_empty());
    assert_eq!(matching[1].len(), 1);

    let near = sg.edges_matching("near");
    assert_eq!(near.len(), 2);
    assert_eq!(near[0].iter().map(|e| (e.src, e.dst)).collect::<Vec<_>>(), [(a, b)]);
    assert_eq!(near[1].iter().map(|e| (e.src, e.dst)).collect::<Vec<_>>(), [(p, p)]);

    assert_eq!(sg.edges_from(b).iter().map(|e| e.dst).collect::<Vec<_>>(), [a]);
    assert!(sg.edges_from(99).is_empty());
    assert_eq!(sg.edges_to(a).iter().map(|e| e.src).collect::<Vec<_>>(), [b]);
    assert_eq!(sg.edges_to(p).iter().map(|e| e.src).collect::<Vec<_>>(), [p]);
    assert!(sg.edges_to(99).is_empty());
}

#[test]
fn clone_is_independent() {
    let (mut sg, [a, _, _, p, _, _]) = family();
    let copy = sg.clone();
    sg.del_node(p).unwrap();
    assert!(sg.node(a).is_err());
    assert!(copy.node(a).is_ok());
    assert_eq!(copy.node(a).unwrap().pid, Some(p));
    assert_eq!(copy.node_counter, sg.node_counter);
}
