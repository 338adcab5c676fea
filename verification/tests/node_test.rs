use create_vox::node::{Node, NodeAttributes, NodeType, Transform};
use create_vox::riff::{nodes_from_chunks, Dict, ReadError};

fn leaf(node_type: NodeType) -> Node {
    Node::new(node_type, NodeAttributes::new())
}

fn placed(id: i32, translation: Option<(i32, i32, i32)>, layer: i32) -> Node {
    let mut node = leaf(NodeType::Transform(Transform { layer, rotation: None, translation }));
    node.add_child(leaf(NodeType::Shape(id)));
    node
}

#[test]
fn node_add() {
    let mut node = Node {
        node_type: NodeType::Transform(Transform {
            layer: 0,
            rotation: Some(0),
            translation: Some((0, 0, 0)),
        }),
        attributes: NodeAttributes { name: None, hidden: None },
        children: Vec::new(),
    };

    node.add_child(Node::new(NodeType::Group, NodeAttributes::new()));
    assert_eq!(node.children.len(), 1)
}

#[test]
fn default_transform_is_identity() {
    let t = Transform::default();
    assert_eq!(t.layer, 0);
    assert_eq!(t.rotation, None);
    assert_eq!(t.translation, None);
}

#[test]
fn only_a_transform_over_one_shape_places_a_model() {
    let node = placed(3, Some((1, 2, 3)), 4);
    assert!(node.has_child_shape());
    assert_eq!(node.placement(), Some((3, Some((1, 2, 3)), Some(4))));

    let mut two = placed(3, None, 0);
    two.add_child(leaf(NodeType::Shape(4)));
    assert!(!two.has_child_shape());
    assert_eq!(two.placement(), None);

    let mut over_group = leaf(NodeType::Transform(Transform::default()));
    over_group.add_child(leaf(NodeType::Group));
    assert_eq!(over_group.placement(), None);

    let mut group = leaf(NodeType::Group);
    group.add_child(leaf(NodeType::Shape(1)));
    assert!(group.has_child_shape());
    assert_eq!(group.placement(), None);

    assert_eq!(leaf(NodeType::Shape(1)).placement(), None);
    assert_eq!(leaf(NodeType::Transform(Transform::default())).placement(), None);
}

#[test]
fn placements_come_in_walk_order() {
    let mut group = leaf(NodeType::Group);
    group.add_child(placed(1, Some((1, 1, 1)), 0));
    group.add_child(leaf(NodeType::Transform(Transform::default())));
    group.add_child(placed(0, None, 7));
    let mut root = leaf(NodeType::Transform(Transform::default()));
    root.add_child(group);
    let mut out = vec![(9, None, None)];
    root.collect_placements(&mut out);
    assert_eq!(out, vec![(9, None, None), (1, Some((1, 1, 1)), Some(0)), (0, None, Some(7))]);
    assert_eq!(root.num_children(), 6);
}

#[test]
fn attributes_stand_in_a_dictionary() {
    let attributes = NodeAttributes { name: Some(String::from("tree")), hidden: Some(true) };
    let dict = attributes.to_dict().unwrap();
    assert_eq!(dict.num_of_pairs, 2);
    assert_eq!(dict.pairs[0].0.content, "_name");
    assert_eq!(dict.pairs[0].1.content, "tree");
    assert_eq!(dict.pairs[1].0.content, "_hidden");
    assert_eq!(dict.pairs[1].1.content, "1");
    let back = NodeAttributes::from_dict(&dict);
    assert_eq!(back.name, Some(String::from("tree")));
    assert_eq!(back.hidden, Some(true));

    let shown = NodeAttributes { name: None, hidden: Some(false) }.to_dict().unwrap();
    assert_eq!(shown.num_of_pairs, 1);
    assert_eq!(shown.pairs[0].1.content, "0");
    assert_eq!(NodeAttributes::from_dict(&shown).hidden, Some(false));

    let none = NodeAttributes::new().to_dict().unwrap();
    assert_eq!(none.num_of_pairs, 0);
    let back = NodeAttributes::from_dict(&none);
    assert_eq!(back.name, None);
    assert_eq!(back.hidden, None);
}

#[test]
fn placement_stands_in_a_frame_dictionary() {
    let t = Transform { layer: 3, rotation: Some(-40), translation: Some((1, -2, 2147483647)) };
    let dict = t.to_frame();
    assert_eq!(dict.num_of_pairs, 2);
    assert_eq!(dict.pairs[0].0.content, "_r");
    assert_eq!(dict.pairs[0].1.content, "-40");
    assert_eq!(dict.pairs[1].0.content, "_t");
    assert_eq!(dict.pairs[1].1.content, "1 -2 2147483647");
    let back = Transform::from_frame(3, &dict).unwrap();
    assert_eq!(back.layer, 3);
    assert_eq!(back.rotation, Some(-40));
    assert_eq!(back.translation, Some((1, -2, 2147483647)));

    let empty = Transform::default().to_frame();
    assert_eq!(empty.num_of_pairs, 0);
    let back = Transform::from_frame(-1, &empty).unwrap();
    assert_eq!(back.layer, -1);
    assert_eq!(back.rotation, None);
    assert_eq!(back.translation, None);
}

fn frame(key: &str, value: &str) -> Dict {
    Dict {
        num_of_pairs: 1,
        pairs: vec![(
            create_vox::riff::VoxString::from_text(String::from(key)).unwrap(),
            create_vox::riff::VoxString::from_text(String::from(value)).unwrap(),
        )],
    }
}

#[test]
fn malformed_frame_text_is_corrupt() {
    for bad in ["", "1 2", "1 2 3 4", "1  2 3", "a b c", "1 2 3 ", " 1 2 3", "1 2 2147483648"] {
        let result = Transform::from_frame(0, &frame("_t", bad));
        assert_eq!(result.err(), Some(ReadError::CorruptContainer), "{:?}", bad);
    }
    for bad in ["", "-", "+1", "1.0", "2147483648", "-2147483649", "12a"] {
        let result = Transform::from_frame(0, &frame("_r", bad));
        assert_eq!(result.err(), Some(ReadError::CorruptContainer), "{:?}", bad);
    }
    let ok = Transform::from_frame(0, &frame("_r", "-2147483648")).unwrap();
    assert_eq!(ok.rotation, Some(i32::MIN));
    let ok = Transform::from_frame(0, &frame("_t", "007 -0 10")).unwrap();
    assert_eq!(ok.translation, Some((7, 0, 10)));
}

fn sample_tree() -> Node {
    let mut group = leaf(NodeType::Group);
    let mut first = placed(0, Some((1, 2, 3)), 0);
    first.attributes.name = Some(String::from("first"));
    group.add_child(first);
    let mut second = placed(1, None, 5);
    second.attributes.hidden = Some(true);
    group.add_child(second);
    let mut root = leaf(NodeType::Transform(Transform::default()));
    root.add_child(group);
    root
}

fn assert_same(a: &Node, b: &Node) {
    assert_eq!(format!("{:?}", a), format!("{:?}", b));
}

#[test]
fn tree_round_trip() {
    let tree = sample_tree();
    let mut out = vec![7; 5];
    assert!(tree.write(&mut out, 0));
    assert_eq!(&out[..5], &[7; 5]);
    assert_eq!(&out[5..9], b"nTRN");
    let mut cursor = 5;
    let back = Node::read(&out, &mut cursor).unwrap();
    assert_eq!(cursor as usize, out.len());
    assert_same(&tree, &back);
}

#[test]
fn tree_numbers_nodes_in_writing_order() {
    let tree = sample_tree();
    let mut out = Vec::new();
    assert!(tree.write(&mut out, 10));
    let mut cursor = 0;
    let root = create_vox::riff::nTRN::read(&out, &mut cursor).unwrap();
    assert_eq!(root.node_id, 10);
    assert_eq!(root.child_node_id, 11);
    assert_eq!(root.reserved_id, -1);
    assert_eq!(root.num_of_frames, 1);
    let group = create_vox::riff::nGRP::read(&out, &mut cursor).unwrap();
    assert_eq!(group.node_id, 11);
    assert_eq!(group.num_of_children_nodes, 2);
    assert_eq!(group.child_id, vec![12, 14]);
    let first = create_vox::riff::nTRN::read(&out, &mut cursor).unwrap();
    assert_eq!(first.node_id, 12);
    assert_eq!(first.child_node_id, 13);
    assert_eq!(first.layer_id, 0);
    let shape = create_vox::riff::nSHP::read(&out, &mut cursor).unwrap();
    assert_eq!(shape.node_id, 13);
    assert_eq!(shape.num_of_models, 1);
    assert_eq!(shape.model_id, 0);
    let second = create_vox::riff::nTRN::read(&out, &mut cursor).unwrap();
    assert_eq!(second.node_id, 14);
    assert_eq!(second.layer_id, 5);
    let shape = create_vox::riff::nSHP::read(&out, &mut cursor).unwrap();
    assert_eq!(shape.node_id, 15);
    assert_eq!(shape.model_id, 1);
    assert_eq!(cursor as usize, out.len());
}

#[test]
fn tree_that_cannot_be_written_leaves_the_buffer_alone() {
    let mut out = vec![1, 2, 3];
    // A transform with two children has no chunk.
    let mut two = placed(0, None, 0);
    two.add_child(leaf(NodeType::Shape(1)));
    assert!(!two.write(&mut out, 0));
    assert_eq!(out, vec![1, 2, 3]);
    // Neither has a transform without child, or a shape with one.
    assert!(!leaf(NodeType::Transform(Transform::default())).write(&mut out, 0));
    let mut shape = leaf(NodeType::Shape(0));
    shape.add_child(leaf(NodeType::Group));
    assert!(!shape.write(&mut out, 0));
    // The fault may lie deep in the tree, behind chunks already written.
    let mut group = leaf(NodeType::Group);
    group.add_child(placed(0, None, 0));
    group.add_child(two);
    let mut root = leaf(NodeType::Transform(Transform::default()));
    root.add_child(group);
    assert!(!root.write(&mut out, 0));
    assert_eq!(out, vec![1, 2, 3]);
    // The identifiers run out.
    assert!(!placed(0, None, 0).write(&mut out, i32::MAX));
    assert!(placed(0, None, 0).write(&mut Vec::new(), i32::MAX - 1));
    assert_eq!(out, vec![1, 2, 3]);
}

#[test]
fn tree_with_unknown_tag_is_corrupt() {
    let tree = sample_tree();
    let mut out = Vec::new();
    assert!(tree.write(&mut out, 0));
    let mut bad = out.clone();
    bad[0] = b'x';
    let mut cursor = 0;
    assert_eq!(Node::read(&bad, &mut cursor).err(), Some(ReadError::CorruptContainer));
    assert_eq!(cursor, 0);
    for cut in 0..out.len() {
        let short = out[..cut].to_vec();
        assert_eq!(Node::read(&short, &mut 0).err(), Some(ReadError::CorruptContainer));
    }
}

#[test]
fn scene_is_found_behind_other_chunks() {
    let mut buf = vec![b'V', b'O', b'X', b' ', 150, 0, 0, 0];
    create_vox::riff::write_chunk("MAIN", 0, 0, &mut buf);
    create_vox::riff::write_chunk("RGBA", 4, 0, &mut buf);
    buf.extend_from_slice(&[1, 2, 3, 4]);
    let tree = sample_tree();
    assert!(tree.write(&mut buf, 0));
    let node = nodes_from_chunks(&buf).unwrap();
    assert_same(&tree, &node);
    assert_eq!(node.children[0].children.len(), 2);
    assert_eq!(node.num_children(), 5);

    let no_scene = vec![b'V', b'O', b'X', b' ', 150, 0, 0, 0];
    assert_eq!(nodes_from_chunks(&no_scene).err(), Some(ReadError::NotFound));
}
