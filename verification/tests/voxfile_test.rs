use create_vox::layer::Layer;
use create_vox::node::{Node, NodeAttributes, NodeType, Transform};
use create_vox::riff::{
    find_chunk, nGRP, nSHP, nTRN, nodes_from_chunks, num_of_chunks, write_chunk, Dict, ReadError,
    VoxString, MATL,
};
use create_vox::{Color, Model, VoxFile, Voxel};

fn leaf(node_type: NodeType) -> Node {
    Node::new(node_type, NodeAttributes::new())
}

fn sample() -> VoxFile {
    let mut vox = VoxFile::new(10, 10, 10);
    vox.models[0].add_cube(0, 0, 0, 2, 2, 2, 1).unwrap();
    vox.models[0].position = Some((1, 2, 3));
    vox.models[0].layer = Some(4);
    let mut second = Model::new(256, 1, 3);
    second.add_voxel_at_pos(255, 0, 2, 200).unwrap();
    second.add_voxel_at_pos(255, 0, 2, 200).unwrap();
    second.name = Some(String::from("second"));
    second.rotation = Some(17);
    assert!(vox.add_model(second));
    let mut third = Model::new(1, 1, 1);
    third.position = Some((-5, 0, 2147483647));
    assert!(vox.add_model(third));
    vox.change_palette_color(1, 10, 20, 30, 40);
    vox.change_palette_color(255, 1, 2, 3, 4);
    vox.layers.push(Layer::new(
        0,
        NodeAttributes { name: Some(String::from("base")), hidden: Some(false) },
    ));
    vox.layers.push(Layer::new(7, NodeAttributes::new()));
    vox
}

#[test]
fn new_container_has_one_model_and_its_scene() {
    let vox = VoxFile::new(5, 6, 7);
    assert_eq!(vox.models.len(), 1);
    assert_eq!(vox.models[0].size, (5, 6, 7));
    assert_eq!(vox.models[0].get_id(), 0);
    assert_eq!(vox.layers.len(), 0);
    assert_eq!(vox.get_palette_color(1), Color::new(255, 255, 255, 255));
    assert_eq!(vox.get_palette_color(255), Color::new(255, 255, 255, 255));
    assert!(matches!(vox.root_node.node_type, NodeType::Transform(_)));
    assert_eq!(vox.root_node.children.len(), 1);
    assert!(matches!(vox.root_node.children[0].node_type, NodeType::Group));
    assert_eq!(vox.root_node.children[0].children.len(), 1);
}

#[test]
fn models_are_numbered_as_they_are_added() {
    let mut vox = VoxFile::new(5, 5, 5);
    let mut model = Model::new(1, 2, 3);
    model.id = 99;
    assert!(vox.add_model(model));
    assert!(vox.add_model(Model::new(3, 2, 1)));
    let ids: Vec<i32> = vox.models.iter().map(|m| m.get_id()).collect();
    assert_eq!(ids, vec![0, 1, 2]);
    assert_eq!(vox.models[1].size, (1, 2, 3));
}

#[test]
fn palette_is_indexed_from_one() {
    let mut vox = VoxFile::new(1, 1, 1);
    vox.change_palette_color(1, 1, 2, 3, 4);
    vox.change_palette_color(2, 5, 6, 7, 8);
    assert_eq!(vox.palette[0], Color::new(1, 2, 3, 4));
    assert_eq!(vox.palette[1], Color::new(5, 6, 7, 8));
    assert_eq!(vox.get_palette_color(1), Color::new(1, 2, 3, 4));
    assert_eq!(vox.get_palette_color(2), Color::new(5, 6, 7, 8));
    assert_eq!(vox.get_palette_color(3), Color::new(255, 255, 255, 255));
}

#[test]
fn scene_is_built_in_list_order() {
    let mut vox = sample();
    vox.make_nodes();
    let root = &vox.root_node;
    match root.node_type {
        NodeType::Transform(t) => {
            assert_eq!(t.layer, 0);
            assert_eq!(t.rotation, None);
            assert_eq!(t.translation, None);
        }
        _ => panic!("root is no transform"),
    }
    assert_eq!(root.children.len(), 1);
    let group = &root.children[0];
    assert!(matches!(group.node_type, NodeType::Group));
    assert_eq!(group.children.len(), 3);
    for (i, child) in group.children.iter().enumerate() {
        assert_eq!(child.children.len(), 1);
        assert!(matches!(child.children[0].node_type, NodeType::Shape(id) if id == i as i32));
        assert_eq!(child.attributes.name, vox.models[i].name);
    }
    assert_eq!(group.children[0].placement(), Some((0, Some((1, 2, 3)), Some(4))));
    assert_eq!(group.children[1].placement(), Some((1, None, Some(0))));
    assert_eq!(group.children[2].placement(), Some((2, Some((-5, 0, 2147483647)), Some(0))));
}

#[test]
fn reconciliation_places_the_model_of_the_shape() {
    let mut vox = VoxFile::new(1, 1, 1);
    for _ in 0..4 {
        vox.add_model(Model::new(1, 1, 1));
    }
    let mut transform = leaf(NodeType::Transform(Transform {
        layer: 6,
        rotation: None,
        translation: Some((1, 2, 3)),
    }));
    transform.add_child(leaf(NodeType::Shape(3)));
    assert_eq!(VoxFile::check_transform(&transform), Some((3, Some((1, 2, 3)), Some(6))));
    vox.root_node = transform;
    vox.get_node_data();
    assert_eq!(vox.models[3].position, Some((1, 2, 3)));
    assert_eq!(vox.models[3].layer, Some(6));
    for i in [0, 1, 2, 4] {
        assert_eq!(vox.models[i].position, None);
        assert_eq!(vox.models[i].layer, None);
    }
}

#[test]
fn transforms_without_shape_place_nothing() {
    let mut vox = VoxFile::new(1, 1, 1);
    vox.add_model(Model::new(1, 1, 1));
    vox.models[0].position = Some((9, 9, 9));
    vox.models[0].layer = Some(2);
    let mut group = leaf(NodeType::Group);
    group.add_child(leaf(NodeType::Transform(Transform {
        layer: 1,
        rotation: None,
        translation: Some((1, 1, 1)),
    })));
    group.add_child(leaf(NodeType::Transform(Transform {
        layer: 1,
        rotation: None,
        translation: Some((2, 2, 2)),
    })));
    assert_eq!(VoxFile::check_transform(&group), None);
    assert_eq!(VoxFile::check_transform(&group.children[0]), None);
    vox.root_node = group;
    vox.get_node_data();
    assert_eq!(vox.models[0].position, Some((9, 9, 9)));
    assert_eq!(vox.models[0].layer, Some(2));
    assert_eq!(vox.models[1].position, None);
    assert_eq!(vox.models[1].layer, None);
    // A shape that no transform encloses places nothing either.
    vox.root_node = leaf(NodeType::Shape(0));
    vox.get_node_data();
    assert_eq!(vox.models[0].position, Some((9, 9, 9)));
}

#[test]
fn reconciliation_twice_is_reconciliation_once() {
    let mut vox = sample();
    vox.make_nodes();
    for model in vox.models.iter_mut() {
        model.position = None;
        model.layer = None;
    }
    vox.get_node_data();
    let once = format!("{:?}", vox.models);
    vox.get_node_data();
    assert_eq!(once, format!("{:?}", vox.models));
    assert_eq!(vox.models[0].position, Some((1, 2, 3)));
    assert_eq!(vox.models[0].layer, Some(4));
    assert_eq!(vox.models[1].layer, Some(0));
}

#[test]
fn change_model_data_touches_only_the_model_named() {
    let mut vox = sample();
    vox.change_model_data(1, Some((7, 8, 9)), Some(3));
    assert_eq!(vox.models[1].position, Some((7, 8, 9)));
    assert_eq!(vox.models[1].layer, Some(3));
    assert_eq!(vox.models[1].rotation, Some(17));
    assert_eq!(vox.models[0].position, Some((1, 2, 3)));
    assert_eq!(vox.models[2].layer, None);
    vox.change_model_data(50, Some((0, 0, 0)), None);
    assert_eq!(vox.models[0].position, Some((1, 2, 3)));
    vox.change_model_data(0, None, None);
    assert_eq!(vox.models[0].position, None);
    assert_eq!(vox.models[0].layer, None);
}

#[test]
fn container_layout() {
    let mut vox = VoxFile::new(2, 3, 4);
    vox.models[0].add_voxel_at_pos(1, 2, 3, 9).unwrap();
    let bytes = vox.write().unwrap();
    assert_eq!(&bytes[0..4], b"VOX ");
    assert_eq!(&bytes[4..8], &[150, 0, 0, 0]);
    assert_eq!(&bytes[8..12], b"MAIN");
    assert_eq!(&bytes[12..16], &[0, 0, 0, 0]);
    assert_eq!(&bytes[16..20], &((bytes.len() - 20) as u32).to_le_bytes());
    assert_eq!(vox.get_size(), (bytes.len() - 20) as i32);
    assert_eq!(&bytes[20..24], b"SIZE");
    assert_eq!(&bytes[44..48], b"XYZI");
    assert_eq!(&bytes[60..64], &[1, 2, 3, 9]);
    assert_eq!(&bytes[64..68], b"RGBA");
    assert_eq!(&bytes[68..72], &[0, 4, 0, 0]);
    assert_eq!(&bytes[76 + 1024..80 + 1024], b"nTRN");
    assert_eq!(find_chunk(&bytes, String::from("MAIN"), 1), Ok(8));
    assert_eq!(find_chunk(&bytes, String::from("SIZE"), 1), Ok(20));
    assert_eq!(find_chunk(&bytes, String::from("RGBA"), 1), Ok(64));
    assert_eq!(find_chunk(&bytes, String::from("nTRN"), 1), Ok(1100));
    assert_eq!(num_of_chunks(&bytes, String::from("nTRN")), Ok(2));
    assert_eq!(num_of_chunks(&bytes, String::from("nGRP")), Ok(1));
    assert_eq!(num_of_chunks(&bytes, String::from("nSHP")), Ok(1));
    assert_eq!(num_of_chunks(&bytes, String::from("LAYR")), Ok(0));
}

#[test]
fn write_then_read_gives_the_container_back() {
    let mut vox = sample();
    let bytes = vox.write().unwrap();
    let back = VoxFile::read(&bytes).unwrap();
    assert_eq!(back.models.len(), 3);
    for (a, b) in vox.models.iter().zip(back.models.iter()) {
        assert_eq!(a.size, b.size);
        assert_eq!(a.voxels, b.voxels);
        assert_eq!(a.position, b.position);
        assert_eq!(a.get_id(), b.get_id());
        assert_eq!(Some(a.layer.unwrap_or(0)), b.layer);
        assert_eq!(b.rotation, None);
        assert_eq!(b.name, None);
    }
    assert_eq!(back.palette.to_vec(), vox.palette.to_vec());
    assert_eq!(back.palette[0], Color::new(10, 20, 30, 40));
    assert_eq!(back.palette[254], Color::new(1, 2, 3, 4));
    assert_eq!(format!("{:?}", back.root_node), format!("{:?}", vox.root_node));
    assert_eq!(format!("{:?}", back.layers), format!("{:?}", vox.layers));
    // What was read is written as the same bytes.
    let mut back = back;
    for (a, b) in vox.models.iter().zip(back.models.iter_mut()) {
        b.name = a.name.clone();
        b.rotation = a.rotation;
        b.layer = a.layer;
    }
    assert_eq!(back.write().unwrap(), bytes);
}

#[test]
fn sizes_are_computed_bottom_up() {
    let mut vox = sample();
    let bytes = vox.write().unwrap();
    assert_eq!(vox.get_size(), (bytes.len() - 20) as i32);
    let mut tree = Vec::new();
    assert!(vox.root_node.write(&mut tree, 0));
    assert_eq!(vox.root_node.get_all_size(), tree.len() as i32);
    // The root: an empty attribute dictionary and an empty frame dictionary.
    assert_eq!(vox.root_node.get_size(), 20 + 4 + 4);
    // The group: an empty attribute dictionary and three child identifiers.
    assert_eq!(vox.root_node.children[0].get_size(), 8 + 4 + 12);
    // The first model's transform: a translation of five characters.
    let first = &vox.root_node.children[0].children[0];
    assert_eq!(first.get_size(), 20 + 4 + (4 + 4 + 2 + 4 + 5));
    assert_eq!(first.children[0].get_size(), 12 + 4 + 4);
    assert_eq!(first.get_all_size(), 12 + 43 + 12 + 20);
    // The second model's transform carries the name and the rotation.
    let second = &vox.root_node.children[0].children[1];
    assert_eq!(second.get_size(), 20 + (4 + 4 + 5 + 4 + 6) + (4 + 4 + 2 + 4 + 2));
    assert_eq!(vox.layers[0].get_size(), 8 + 4 + (4 + 5 + 4 + 4) + (4 + 7 + 4 + 1));
    assert_eq!(vox.layers[1].get_size(), 8 + 4);
    let mut layer = Vec::new();
    assert!(vox.layers[0].write(&mut layer));
    assert_eq!(layer.len() as i32, 12 + vox.layers[0].get_size());
    // A change shows in the size that is computed next.
    vox.models[0].add_voxel_at_pos(5, 5, 5, 1).unwrap();
    assert_eq!(vox.get_size(), (bytes.len() - 20) as i32 + 4);
}

#[test]
fn layer_round_trip() {
    let layer = Layer::new(
        -3,
        NodeAttributes { name: Some(String::from("top")), hidden: Some(true) },
    );
    let mut out = vec![1, 2];
    assert!(layer.write(&mut out));
    assert_eq!(&out[2..6], b"LAYR");
    assert_eq!(&out[out.len() - 4..], &[255, 255, 255, 255]);
    let mut cursor = 2;
    let back = Layer::read(&out, &mut cursor).unwrap();
    assert_eq!(cursor as usize, out.len());
    assert_eq!(back.id, -3);
    assert_eq!(back.attributes.name, Some(String::from("top")));
    assert_eq!(back.attributes.hidden, Some(true));
    let short = out[..out.len() - 1].to_vec();
    let mut cursor = 2;
    assert_eq!(Layer::read(&short, &mut cursor).err(), Some(ReadError::CorruptContainer));
    assert_eq!(cursor, 2);
}

#[test]
fn from_bytes_leaves_models_unplaced() {
    let mut vox = sample();
    let bytes = vox.write().unwrap();
    let raw = VoxFile::from_bytes(&bytes).unwrap();
    for model in raw.models.iter() {
        assert_eq!(model.position, None);
        assert_eq!(model.layer, None);
    }
    assert_eq!(raw.models[1].voxels, vec![Voxel::new(255, 0, 2, 200), Voxel::new(255, 0, 2, 200)]);
}

#[test]
fn container_without_optional_chunks() {
    let mut bytes = vec![b'V', b'O', b'X', b' ', 150, 0, 0, 0];
    create_vox::riff::write_chunk("MAIN", 0, 0, &mut bytes);
    let vox = VoxFile::read(&bytes).unwrap();
    assert_eq!(vox.models.len(), 0);
    assert_eq!(vox.layers.len(), 0);
    assert_eq!(vox.palette[17], Color::new(255, 255, 255, 255));
    assert!(matches!(vox.root_node.node_type, NodeType::Transform(_)));
    assert_eq!(vox.root_node.children.len(), 0);
}

#[test]
fn container_with_faults_is_refused() {
    let mut vox = sample();
    let bytes = vox.write().unwrap();
    let mut no_magic = bytes.clone();
    no_magic[0] = b'v';
    assert_eq!(VoxFile::read(&no_magic).err(), Some(ReadError::CorruptContainer));
    assert_eq!(VoxFile::read(&vec![]).err(), Some(ReadError::CorruptContainer));
    assert_eq!(VoxFile::read(&bytes[..7].to_vec()).err(), Some(ReadError::CorruptContainer));
    for cut in [9, 19, 21, 50, 100, 1200, bytes.len() - 1] {
        let short = bytes[..cut].to_vec();
        assert_eq!(VoxFile::read(&short).err(), Some(ReadError::CorruptContainer), "{}", cut);
    }
    // Palette index 0 in a voxel record.
    let mut zero = bytes.clone();
    let first_voxel = find_chunk(&bytes, String::from("XYZI"), 1).unwrap() + 16;
    zero[first_voxel + 3] = 0;
    assert_eq!(VoxFile::read(&zero).err(), Some(ReadError::InvalidArgument));
    // A name that is not UTF-8.
    let mut bad_name = bytes.clone();
    let at = bytes.windows(6).position(|w| w == b"second").unwrap();
    bad_name[at] = 0xff;
    assert_eq!(VoxFile::read(&bad_name).err(), Some(ReadError::EncodingViolation));
    // A translation that is no number.
    let mut bad_frame = bytes.clone();
    let at = bytes.windows(5).position(|w| w == b"1 2 3").unwrap();
    bad_frame[at] = b'x';
    assert_eq!(VoxFile::read(&bad_frame).err(), Some(ReadError::CorruptContainer));
}

#[test]
fn container_that_cannot_be_written() {
    let mut vox = VoxFile::new(1, 1, 1);
    // A scene graph that has no chunks is refused by `to_bytes`, and mended by `write`.
    vox.root_node = leaf(NodeType::Transform(Transform::default()));
    assert_eq!(vox.to_bytes(), None);
    assert!(vox.write().is_some());
    assert!(vox.to_bytes().is_some());
}

#[test]
fn make_tree() {
    let mut vox = sample();
    let contents = vox.write().unwrap();

    let node = nodes_from_chunks(&contents).unwrap();

    let chunks = num_of_chunks(&contents, String::from("nTRN")).unwrap()
        + num_of_chunks(&contents, String::from("nGRP")).unwrap()
        + num_of_chunks(&contents, String::from("nSHP")).unwrap();
    assert_eq!(chunks, 8);
    assert_eq!(node.children[0].children.len(), 3);
    assert!(matches!(node.node_type, NodeType::Transform(_)));
    assert_eq!(node.num_children(), 7);
}

#[test]
fn chunk_read() {
    let mut vox = sample();
    let contents = vox.write().unwrap();

    //start of first chunk
    let mut pos = find_chunk(&contents, String::from("nTRN"), 2).unwrap() as i32;
    let chunk = nTRN::read(&contents, &mut pos).unwrap();

    assert_eq!(chunk.node_id, 2);
    assert_eq!(chunk.node_attributes.num_of_pairs, 0);
    assert_eq!(chunk.child_node_id, 3);
    assert_eq!(chunk.reserved_id, -1);
    assert_eq!(chunk.layer_id, 4);
    assert_eq!(chunk.num_of_frames, 1);
    assert_eq!(chunk.frame_attributes.num_of_pairs, 1);
    assert_eq!(chunk.frame_attributes.pairs[0].0.content, "_t");
    assert_eq!(chunk.frame_attributes.pairs[0].1.content, "1 2 3");
}

fn pairs(items: Vec<(&str, &str)>) -> Dict {
    Dict::from_pairs(
        items
            .into_iter()
            .map(|(k, v)| {
                (
                    VoxString::from_text(String::from(k)).unwrap(),
                    VoxString::from_text(String::from(v)).unwrap(),
                )
            })
            .collect(),
    )
}

#[test]
fn reads_chunks_in_any_order_and_passes_over_others() {
    let mut bytes = vec![b'V', b'O', b'X', b' ', 200, 0, 0, 0];
    write_chunk("MAIN", 0, 0, &mut bytes);
    write_chunk("PACK", 4, 0, &mut bytes);
    bytes.extend_from_slice(&[1, 0, 0, 0]);
    let mut model = Model::new(4, 4, 4);
    model.add_voxel_at_pos(1, 2, 3, 79).unwrap();
    model.write(&mut bytes);
    nTRN {
        node_id: 0,
        node_attributes: pairs(vec![]),
        child_node_id: 1,
        reserved_id: -1,
        layer_id: -1,
        num_of_frames: 1,
        frame_attributes: pairs(vec![]),
    }
    .write(&mut bytes);
    nGRP {
        node_id: 1,
        node_attributes: pairs(vec![]),
        num_of_children_nodes: 1,
        child_id: vec![2],
    }
    .write(&mut bytes);
    nTRN {
        node_id: 2,
        node_attributes: pairs(vec![("_name", "cube")]),
        child_node_id: 3,
        reserved_id: -1,
        layer_id: 0,
        num_of_frames: 1,
        frame_attributes: pairs(vec![("_t", "0 0 10")]),
    }
    .write(&mut bytes);
    nSHP {
        node_id: 3,
        node_attributes: pairs(vec![]),
        num_of_models: 1,
        model_id: 0,
        model_attributes: pairs(vec![]),
    }
    .write(&mut bytes);
    assert!(Layer::new(0, NodeAttributes { name: Some(String::from("l")), hidden: None })
        .write(&mut bytes));
    write_chunk("RGBA", 1024, 0, &mut bytes);
    for i in 0..256u32 {
        bytes.extend_from_slice(&[i as u8, 1, 2, 3]);
    }
    MATL { material_id: 1, properties: pairs(vec![("_type", "_diffuse")]) }.write(&mut bytes);
    write_chunk("rOBJ", 3, 0, &mut bytes);
    bytes.extend_from_slice(&[9, 9, 9]);

    let vox = VoxFile::read(&bytes).unwrap();
    assert_eq!(vox.models.len(), 1);
    assert_eq!(vox.models[0].size, (4, 4, 4));
    assert_eq!(vox.models[0].voxels, vec![Voxel::new(1, 2, 3, 79)]);
    assert_eq!(vox.models[0].position, Some((0, 0, 10)));
    assert_eq!(vox.models[0].layer, Some(0));
    assert_eq!(vox.palette[0], Color::new(0, 1, 2, 3));
    assert_eq!(vox.palette[255], Color::new(255, 1, 2, 3));
    assert_eq!(vox.layers.len(), 1);
    assert_eq!(vox.layers[0].attributes.name, Some(String::from("l")));
    match vox.root_node.node_type {
        NodeType::Transform(t) => assert_eq!(t.layer, -1),
        _ => panic!("root is no transform"),
    }
    let placed = &vox.root_node.children[0].children[0];
    assert_eq!(placed.attributes.name, Some(String::from("cube")));
    assert_eq!(num_of_chunks(&bytes, String::from("MATL")), Ok(1));
    let mut cursor = find_chunk(&bytes, String::from("MATL"), 1).unwrap() as i32;
    assert_eq!(MATL::read(&bytes, &mut cursor).unwrap().material_id, 1);
}
