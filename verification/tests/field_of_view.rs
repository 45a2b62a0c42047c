use std::collections::HashSet;

use atlas::{AtlasError, Coordinate, Feature, Layer, Node, SceneGraph};
use glam::{Quat, Vec3};

/// A cone frustum at `pos`, turned by yaw, then pitch, then roll (radians),
/// that sees what lies within `half_angle` of its forward axis, no nearer
/// than `near` and no farther than `far`.
fn frustum(
    pos: Vec3,
    yaw: f32,
    pitch: f32,
    roll: f32,
    half_angle: f32,
    near: f32,
    far: f32,
) -> impl Fn(&Coordinate) -> bool + Copy {
    let rotation =
        Quat::from_rotation_y(yaw) * Quat::from_rotation_x(pitch) * Quat::from_rotation_z(roll);
    let forward = (rotation * Vec3::Z).normalize();
    let half_angle_cos = half_angle.cos();
    move |p: &Coordinate| {
        let v = *p - pos;
        let d = v.length();
        if d < near || d > far || d == 0.0 {
            return false;
        }
        (v / d).dot(forward) >= half_angle_cos
    }
}

fn cone() -> impl Fn(&Coordinate) -> bool + Copy {
    // Observer at origin, no rotation
    let pos = Coordinate::new(0.0, 0.0, 0.0);
    let yaw = 0_f32.to_radians();
    let pitch = 0_f32.to_radians();
    let roll = 0_f32.to_radians();

    // Cone View Frustum: half-angle=35 degrees, near=0.6, far=6.0
    let half_angle = 35_f32.to_radians();
    let near = 0.6;
    let far = 6.0;

    frustum(pos, yaw, pitch, roll, half_angle, near, far)
}

#[test]
fn fov_query() {
    let pts = [
        Coordinate::new(0.0, 0.0, 1.0), // inside
        Coordinate::new(0.0, 0.0, 1.0), // inside
        Coordinate::new(0.0, 0.0, 1.0), // inside
        Coordinate::new(6.0, 6.0, 6.0), // outside
        Coordinate::new(6.0, 6.0, 6.0), // outside
        Coordinate::new(6.0, 6.0, 6.0), // outside
        Coordinate::new(6.0, 6.0, 6.0), // outside
    ];
    let mut layer = Layer::new();
    for (i, p) in pts.iter().enumerate() {
        layer.push_node(Node::new(i, Vec::new(), Some(*p)));
    }
    // Node with no coordinates
    layer.push_node(Node::new(pts.len(), Vec::new(), None));

    // fully connecting nodes to each other
    for src in 0..layer.nodes.len() {
        for dst in 0..layer.nodes.len() {
            layer.add_edge(src, dst, "connect").unwrap();
        }
    }

    let cone = cone();
    let observed_layer = layer.observable_nodes(cone);
    assert_eq!(observed_layer.nodes.len(), 3);
    for node in observed_layer.nodes {
        // all nodes should have coordinates to be observable
        assert!(node.coordinates.is_some());
        // all nodes should be within the cone frustum
        assert!(cone(&node.coordinates.unwrap()));
        // nodes 0,1,2 are inside, rest are outside, so only edges to 0,1,2 should remain
        assert_eq!(
            node.edges.iter().map(|e| e.dst).collect::<Vec<_>>(),
            [0, 1, 2]
        )
    }
}

#[test]
fn fov() -> Result<(), AtlasError> {
    let mut sg = SceneGraph::default();
    let inside_coords = Coordinate::new(0.0, 0.0, 1.0);
    let outside_coords = Coordinate::new(6.0, 6.0, 6.0);

    // first layer:
    // coordinate nodes, half inside FOV, half outside, fully connected
    const NUM_COOR_NODES: usize = 150;
    let mut nodes = Vec::new();
    for id in 0..NUM_COOR_NODES {
        let coords = if (id / 15) % 2 == 0 {
            inside_coords
        } else {
            outside_coords
        };
        let node = sg.new_coordinates(Coordinate::new(coords.x, coords.y, coords.z), Vec::new());
        nodes.push(node);
    }
    let layer = sg.new_layer();
    for node in nodes {
        layer.push_node(node);
    }

    for src in 0..NUM_COOR_NODES {
        for dst in 0..NUM_COOR_NODES {
            assert!(layer.add_edge(src, dst, "connect").is_ok());
        }
    }

    // Second layer:
    // semantic nodes, each parenting 10 coordinate nodes from the first layers
    // fully connected. around half of them father no visible coordinate nodes
    let mut nodes = Vec::new();
    const NUM_SEMANTIC_NODES: usize = NUM_COOR_NODES / 10;
    for id in 0..NUM_SEMANTIC_NODES {
        let node = sg.new_node(vec![Feature::new("name", &format!("semantic {}", id))]);
        nodes.push(node);
    }
    let layer = sg.new_layer();
    for node in nodes {
        layer.push_node(node);
    }
    for src in 0..NUM_SEMANTIC_NODES {
        for dst in 0..NUM_SEMANTIC_NODES {
            assert!(layer
                .add_edge(NUM_COOR_NODES + src, NUM_COOR_NODES + dst, "connect")
                .is_ok());
        }
    }
    // each 10 nodes from the first layer under each semantic node
    for id in 0..NUM_COOR_NODES {
        assert!(sg.nest(id).under(NUM_COOR_NODES + id / 10).is_ok());
    }

    // Third layer:
    // 1 node parenting all semantic nodes from the second layer
    let root_node = sg.new_node(vec![Feature::new("name", "root")]);
    let root_id = root_node.id;
    let layer = sg.new_layer();
    layer.push_node(root_node);
    for id in 0..NUM_SEMANTIC_NODES {
        assert!(sg.nest(NUM_COOR_NODES + id).under(root_id).is_ok());
    }

    // Query visible subgraph under root
    let cone = cone();
    let observed_sg = sg.visible_subgraph(cone, root_id)?;

    // number of observed nodes in the first layer should be half of total
    let layer = observed_sg.layer(0)?;
    assert_eq!(layer.nodes.len(), NUM_COOR_NODES / 2);
    // only edges between visible nodes should be present
    let mut visible_node_ids: Vec<usize> = layer.nodes.iter().map(|n| n.id).collect();
    visible_node_ids.sort();
    for src in &visible_node_ids {
        let mut edges = layer
            .node(*src)?
            .edges
            .iter()
            .map(|e| e.dst)
            .collect::<Vec<usize>>();
        edges.sort();
        assert_eq!(&edges, &visible_node_ids);
    }

    // on the second layer, only semantic nodes parenting visible coordinate nodes should be present
    let pids = observed_sg
        .layer(0)?
        .nodes
        .iter()
        .filter_map(|n| n.pid)
        .collect::<HashSet<usize>>();
    observed_sg.layer(1)?.nodes.iter().for_each(|n| {
        assert!(pids.contains(&n.id));
    });

    // some nodes from the second layer should be pruned
    assert!(pids.len() < NUM_SEMANTIC_NODES);
    // edges between remaining semantic nodes should be intact
    for src in &pids {
        let edges = observed_sg
            .layer(1)?
            .node(*src)?
            .edges
            .iter()
            .map(|e| e.dst)
            .collect::<HashSet<usize>>();
        assert_eq!(&edges, &pids);
    }

    // on the third layer, the root node should be present
    let layer = observed_sg.layer(2)?;
    assert_eq!(layer.nodes.len(), 1);

    Ok(())
}

#[test]
fn cone_sees_what_lies_ahead_within_reach() {
    let cone = cone();
    assert!(cone(&Coordinate::new(0.0, 0.0, 1.0)));
    assert!(!cone(&Coordinate::new(6.0, 6.0, 6.0)));
    // nearer than near, farther than far, behind, and the observer's own place
    assert!(!cone(&Coordinate::new(0.0, 0.0, 0.5)));
    assert!(!cone(&Coordinate::new(0.0, 0.0, 6.5)));
    assert!(!cone(&Coordinate::new(0.0, 0.0, -1.0)));
    assert!(!cone(&Coordinate::new(0.0, 0.0, 0.0)));
}

/// Layer 0: ten nodes at (0,0,1) and ten at (6,6,6), fully connected;
/// layer 1: two nodes, the first over the near group, the second over the
/// far one; layer 2: a root over both.
fn two_groups() -> (SceneGraph, Vec<usize>, Vec<usize>, [usize; 2], usize) {
    let mut sg = SceneGraph::default();
    let mut near = Vec::new();
    let mut far = Vec::new();
    let mut nodes = Vec::new();
    for _ in 0..10 {
        let node = sg.new_coordinates(Coordinate::new(0.0, 0.0, 1.0), Vec::new());
        near.push(node.id);
        nodes.push(node);
    }
    for _ in 0..10 {
        let node = sg.new_coordinates(Coordinate::new(6.0, 6.0, 6.0), Vec::new());
        far.push(node.id);
        nodes.push(node);
    }
    let layer = sg.new_layer();
    for node in nodes {
        layer.push_node(node);
    }
    for src in near.iter().chain(far.iter()) {
        for dst in near.iter().chain(far.iter()) {
            layer.add_edge(*src, *dst, "connect").unwrap();
        }
    }
    let over_near = sg.new_node(vec![Feature::new("name", "near")]);
    let over_far = sg.new_node(vec![Feature::new("name", "far")]);
    let groups = [over_near.id, over_far.id];
    let layer = sg.new_layer();
    layer.push_node(over_near);
    layer.push_node(over_far);
    layer.add_edge(groups[0], groups[1], "beside").unwrap();
    layer.add_edge(groups[1], groups[0], "beside").unwrap();
    for id in &near {
        sg.nest(*id).under(groups[0]).unwrap();
    }
    for id in &far {
        sg.nest(*id).under(groups[1]).unwrap();
    }
    let root = sg.new_node(vec![Feature::new("name", "root")]);
    let root_id = root.id;
    sg.new_layer().push_node(root);
    for id in groups {
        sg.nest(id).under(root_id).unwrap();
    }
    (sg, near, far, groups, root_id)
}

#[test]
fn visible_subgraph_of_two_groups() -> Result<(), AtlasError> {
    let (sg, near, _far, groups, root) = two_groups();
    let cone = cone();
    let seen = sg.visible_subgraph(cone, root)?;

    assert_eq!(seen.layers.len(), 3);
    // layer 0: exactly the ten nodes at (0,0,1)
    assert_eq!(seen.layer(0)?.ids(), near);
    for node in &seen.layer(0)?.nodes {
        assert_eq!(node.coordinates, Some(Coordinate::new(0.0, 0.0, 1.0)));
        assert!(cone(&node.coordinates.unwrap()));
        assert_eq!(node.edges.iter().map(|e| e.dst).collect::<Vec<_>>(), near);
    }
    // layer 1: the one node over the visible group, without its edge to the other
    assert_eq!(seen.layer(1)?.ids(), vec![groups[0]]);
    assert!(seen.layer(1)?.nodes[0].edges.is_empty());
    // every survivor above the base has a child among the survivors below
    for node in &seen.layer(1)?.nodes {
        assert!(seen.layer(0)?.nodes.iter().any(|n| n.pid == Some(node.id)));
    }
    // layer 2: the root, without a parent
    assert_eq!(seen.layer(2)?.ids(), vec![root]);
    assert_eq!(seen.layer(2)?.nodes[0].pid, None);
    assert_eq!(seen.node_counter, sg.node_counter);
    Ok(())
}

#[test]
fn visible_subgraph_below_an_inner_node() -> Result<(), AtlasError> {
    let (sg, near, far, groups, _root) = two_groups();
    // below the near group: layers above the root are there, and empty
    let seen = sg.visible_subgraph(cone(), groups[0])?;
    assert_eq!(seen.layers.len(), 3);
    assert_eq!(seen.layer(0)?.ids(), near);
    assert_eq!(seen.layer(1)?.ids(), vec![groups[0]]);
    assert_eq!(seen.layer(1)?.nodes[0].pid, None);
    assert!(seen.layer(2)?.nodes.is_empty());
    // below the far group nothing is visible, not even the group
    let unseen = sg.visible_subgraph(cone(), groups[1])?;
    assert_eq!(unseen.layers.len(), 3);
    assert!(unseen.layers.iter().all(|l| l.nodes.is_empty()));
    // below a single point: the point alone, if it is visible
    let point = sg.visible_subgraph(cone(), near[3])?;
    assert_eq!(point.layer(0)?.ids(), vec![near[3]]);
    assert_eq!(point.layer(0)?.nodes[0].pid, None);
    assert!(sg.visible_subgraph(cone(), far[3])?.layer(0)?.nodes.is_empty());
    // a root that does not exist
    assert!(matches!(
        sg.visible_subgraph(cone(), 999),
        Err(AtlasError::NodeNotFound)
    ));
    Ok(())
}

#[test]
fn a_node_without_a_position_is_never_seen_itself() -> Result<(), AtlasError> {
    let mut sg = SceneGraph::default();
    let blind = sg.new_node(Vec::new());
    let sighted = sg.new_coordinates(Coordinate::new(0.0, 0.0, 1.0), Vec::new());
    let parent = sg.new_node(Vec::new());
    let (blind, sighted, parent) = {
        let ids = (blind.id, sighted.id, parent.id);
        let l = sg.new_layer();
        l.push_node(blind);
        l.push_node(sighted);
        sg.new_layer().push_node(parent);
        ids
    };
    sg.nest(blind).under(parent)?;
    let everything = |_: &Coordinate| true;
    // with only the blind child the parent has no visible child
    let seen = sg.visible_subgraph(everything, parent)?;
    assert!(seen.layer(0)?.nodes.is_empty());
    assert!(seen.layer(1)?.nodes.is_empty());
    // with a sighted child it survives as an ancestor, though it has no position
    sg.nest(sighted).under(parent)?;
    let seen = sg.visible_subgraph(everything, parent)?;
    assert_eq!(seen.layer(0)?.ids(), vec![sighted]);
    assert_eq!(seen.layer(1)?.ids(), vec![parent]);
    assert!(seen.layer(1)?.nodes[0].coordinates.is_none());
    Ok(())
}

#[test]
fn subgraph_keeps_the_layer_indices() -> Result<(), AtlasError> {
    let (sg, near, far, groups, root) = two_groups();
    let all = sg.subgraph(root)?;
    assert_eq!(all.layers.len(), 3);
    assert_eq!(all.layer(2)?.ids(), vec![root]);
    assert_eq!(all.layer(1)?.ids(), groups.to_vec());
    let mut points = near.clone();
    points.extend(far.iter());
    assert_eq!(all.layer(0)?.ids(), points);
    // edges inside the subgraph stay
    assert_eq!(all.layer(1)?.nodes[0].edges.len(), 1);
    assert_eq!(all.layer(0)?.nodes[0].edges.len(), 20);

    let part = sg.subgraph(groups[1])?;
    assert_eq!(part.layers.len(), 3);
    assert!(part.layer(2)?.nodes.is_empty());
    assert_eq!(part.layer(1)?.ids(), vec![groups[1]]);
    assert_eq!(part.layer(1)?.nodes[0].pid, None);
    // the edge to the other group leads out of the subgraph
    assert!(part.layer(1)?.nodes[0].edges.is_empty());
    assert_eq!(part.layer(0)?.ids(), far);
    assert_eq!(part.layer(0)?.nodes[0].pid, Some(groups[1]));
    assert_eq!(
        part.layer(0)?.nodes[0].edges.iter().map(|e| e.dst).collect::<Vec<_>>(),
        far
    );
    // the graph itself is as it was
    assert_eq!(sg.node(groups[1])?.pid, Some(root));
    assert_eq!(sg.node(groups[1])?.edges.len(), 1);
    assert!(matches!(sg.subgraph(999), Err(AtlasError::NodeNotFound)));
    Ok(())
}

#[test]
fn subgraph_follows_the_order_of_the_children() -> Result<(), AtlasError> {
    let (mut sg, near, _far, groups, _root) = two_groups();
    let mut order = near.clone();
    order.reverse();
    sg.node_mut(groups[0])?.children = order.clone();
    assert_eq!(sg.subgraph(groups[0])?.layer(0)?.ids(), order);
    Ok(())
}

#[test]
fn visible_part_goes_by_the_mask_of_the_base_layer() -> Result<(), AtlasError> {
    let (sg, near, far, groups, root) = two_groups();
    let mut mask = vec![false; 20];
    mask[12] = true;
    let seen = sg.visible_part(&mask);
    assert_eq!(seen.layer(0)?.ids(), vec![far[2]]);
    assert_eq!(seen.layer(1)?.ids(), vec![groups[1]]);
    assert_eq!(seen.layer(2)?.ids(), vec![root]);
    mask[0] = true;
    let seen = sg.visible_part(&mask);
    assert_eq!(seen.layer(0)?.ids(), vec![near[0], far[2]]);
    assert_eq!(seen.layer(1)?.ids(), groups.to_vec());
    assert_eq!(seen.layer(1)?.nodes[0].edges.len(), 1);
    let nothing = sg.visible_part(&[]);
    assert_eq!(nothing.layers.len(), 3);
    assert!(nothing.layers.iter().all(|l| l.nodes.is_empty()));
    assert!(SceneGraph::default().visible_part(&[true]).layers.is_empty());
    Ok(())
}

/// The observer of these tests against known points.
#[test]
fn cone_frustum_check() {
    // Observer at origin, yaw=30 degrees, pitch=5 degrees, roll=0
    let pos = Vec3::new(0.0, 0.0, 0.0);
    let yaw = 30_f32.to_radians();
    let pitch = 5_f32.to_radians();
    let roll = 0.0;

    // Cone View Frustum: half-angle=35 degrees, near=0.6, far=6.0
    let half_angle = 35_f32.to_radians();
    let near = 0.6;
    let far = 6.0;

    let cone = frustum(pos, yaw, pitch, roll, half_angle, near, far);

    // Some test points (world space)
    let pts = [
        (Vec3::new(2.0, 0.4, 4.5), true),    // likely inside
        (Vec3::new(0.2, 0.1, 0.4), false), // inside angle but closer than near (should be false)
        (Vec3::new(5.0, 2.5, 0.5), false), // near edge
        (Vec3::new(-1.0, 0.0, 2.0), false), // behind-ish/side (likely outside angle)
        (Vec3::new(20.0, 0.0, 30.0), false), // beyond far (false)
    ];

    for (p, is_observable) in pts.iter() {
        assert_eq!(cone(p), *is_observable);
    }
}
