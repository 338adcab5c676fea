use create_vox::model::Model;
use create_vox::node::NodeType;
use create_vox::riff::ReadError;
use create_vox::Voxel;

#[test]
fn voxel_is_made_of_position_and_index() {
    let voxel = Voxel::new(5, 0, 255, 1);
    assert_eq!(voxel.position, (5, 0, 255));
    assert_eq!(voxel.colorindex, 1);
    assert_eq!(voxel, Voxel::new(5, 0, 255, 1));
    assert_ne!(voxel, Voxel::new(5, 0, 255, 2));
    assert_ne!(voxel, Voxel::new(5, 1, 255, 1));
    assert_eq!(voxel + Voxel::new(1, 1, 1, 9), vec![voxel, Voxel::new(1, 1, 1, 9)]);
}

#[test]
fn new_model_is_empty_and_unplaced() {
    let model = Model::new(10, 256, 1);
    assert_eq!(model.size, (10, 256, 1));
    assert_eq!(model.num_of_voxels(), 0);
    assert_eq!(model.position, None);
    assert_eq!(model.rotation, None);
    assert_eq!(model.layer, None);
    assert_eq!(model.name, None);
    assert_eq!(model.get_id(), 0);
}

#[test]
fn grid_refuses_voxels_outside() {
    let mut model = Model::new(10, 10, 10);
    assert_eq!(
        model.add_voxel(Voxel::new(10, 0, 0, 1)),
        Err("Voxel position greater than Voxobject size")
    );
    assert_eq!(model.num_of_voxels(), 0);
    assert_eq!(model.add_voxel(Voxel::new(9, 0, 0, 1)), Ok(()));
    assert_eq!(model.num_of_voxels(), 1);
    assert!(model.is_voxel_at_pos(9, 0, 0));
    assert!(!model.is_voxel_at_pos(0, 0, 9));
    assert_eq!(model.add_voxel(Voxel::new(0, 10, 0, 1)).is_err(), true);
    assert_eq!(model.add_voxel(Voxel::new(0, 0, 10, 1)).is_err(), true);
    assert_eq!(model.add_voxel(Voxel::new(255, 255, 255, 1)).is_err(), true);
    assert_eq!(model.voxels, vec![Voxel::new(9, 0, 0, 1)]);
}

#[test]
fn largest_grid_takes_the_far_corner() {
    let mut model = Model::new(256, 256, 256);
    assert_eq!(model.add_voxel(Voxel::new(255, 255, 255, 1)), Ok(()));
    assert_eq!(model.add_voxel_at_pos(255, 0, 255, 2), Ok(()));
    assert_eq!(model.num_of_voxels(), 2);
}

#[test]
fn voxel_at_position() {
    let mut model = Model::new(50, 10, 30);
    assert_eq!(model.add_voxel_at_pos(3, 4, 3, 1), Ok(()));
    assert!(model.is_voxel_at_pos(3, 4, 3));
    assert_eq!(
        model.add_voxel_at_pos(3, 10, 3, 1),
        Err("Position greater than Voxobject size")
    );
    assert_eq!(model.add_voxel_at_pos(50, 0, 0, 0).is_err(), true);
    assert_eq!(model.voxels, vec![Voxel::new(3, 4, 3, 1)]);
}

#[test]
fn clear_and_resize() {
    let mut model = Model::new(20, 20, 20);
    model.add_cube(2, 2, 2, 10, 10, 10, 1).unwrap();
    assert_eq!(model.num_of_voxels(), 512);
    model.clear_voxels();
    assert_eq!(model.num_of_voxels(), 0);
    model.set_size(12, 6, 24);
    assert_eq!(model.size, (12, 6, 24));
    model.set_size(256, 0, 1);
    assert_eq!(model.size, (256, 0, 1));
}

#[test]
fn cube_is_filled_x_outermost() {
    let mut model = Model::new(10, 10, 10);
    model.add_voxel_at_pos(0, 0, 0, 9).unwrap();
    assert_eq!(model.add_cube(1, 2, 3, 3, 4, 5, 7), Ok(()));
    let expected: Vec<Voxel> = vec![
        (0, 0, 0, 9),
        (1, 2, 3, 7),
        (1, 2, 4, 7),
        (1, 3, 3, 7),
        (1, 3, 4, 7),
        (2, 2, 3, 7),
        (2, 2, 4, 7),
        (2, 3, 3, 7),
        (2, 3, 4, 7),
    ]
    .into_iter()
    .map(|(x, y, z, c)| Voxel::new(x, y, z, c))
    .collect();
    assert_eq!(model.voxels, expected);
}

#[test]
fn cube_that_does_not_fit_adds_nothing() {
    let mut model = Model::new(10, 5, 10);
    assert_eq!(model.add_cube(0, 0, 0, 10, 6, 10, 1), Err("Cube too large"));
    assert_eq!(model.add_cube(0, 0, 0, 11, 5, 10, 1), Err("Cube too large"));
    assert_eq!(model.add_cube(0, 0, 0, 10, 5, 11, 1), Err("Cube too large"));
    assert_eq!(model.num_of_voxels(), 0);
    assert_eq!(model.add_cube(0, 0, 0, 10, 5, 10, 1), Ok(()));
    assert_eq!(model.num_of_voxels(), 500);
    // A cuboid without cells fits anywhere.
    assert_eq!(model.add_cube(200, 0, 0, 200, 255, 255, 1), Ok(()));
    assert_eq!(model.add_cube(5, 5, 5, 4, 200, 200, 0), Ok(()));
    assert_eq!(model.num_of_voxels(), 500);
}

#[test]
fn auto_size_moves_to_origin_and_shrinks() {
    let mut model = Model::new(10, 10, 10);
    model.add_cube(2, 2, 2, 6, 7, 6, 1).unwrap();
    model.add_voxel_at_pos(9, 3, 2, 4).unwrap();
    model.auto_size();
    assert_eq!(model.size, (8, 5, 4));
    assert_eq!(model.voxels[0], Voxel::new(0, 0, 0, 1));
    assert_eq!(model.voxels[model.voxels.len() - 1], Voxel::new(7, 1, 0, 4));
    assert_eq!(model.num_of_voxels(), 4 * 5 * 4 + 1);
}

#[test]
fn auto_size_twice_is_auto_size_once() {
    let mut model = Model::new(256, 256, 256);
    model.add_voxel_at_pos(255, 17, 3, 1).unwrap();
    model.add_voxel_at_pos(200, 255, 9, 2).unwrap();
    model.add_voxel_at_pos(201, 20, 3, 3).unwrap();
    model.auto_size();
    let size = model.size;
    let voxels = model.voxels.clone();
    assert_eq!(size, (56, 239, 7));
    assert_eq!(
        voxels,
        vec![Voxel::new(55, 0, 0, 1), Voxel::new(0, 238, 6, 2), Voxel::new(1, 3, 0, 3)]
    );
    model.auto_size();
    assert_eq!(model.size, size);
    assert_eq!(model.voxels, voxels);
}

#[test]
fn auto_size_of_empty_and_full_span() {
    let mut empty = Model::new(10, 10, 10);
    empty.auto_size();
    assert_eq!(empty.size, (1, 1, 1));
    assert_eq!(empty.num_of_voxels(), 0);

    let mut full = Model::new(256, 256, 256);
    full.add_voxel_at_pos(0, 0, 0, 1).unwrap();
    full.add_voxel_at_pos(255, 255, 255, 1).unwrap();
    full.auto_size();
    assert_eq!(full.size, (256, 256, 256));
    assert_eq!(full.voxels, vec![Voxel::new(0, 0, 0, 1), Voxel::new(255, 255, 255, 1)]);
}

#[test]
fn compaction_drops_voxels_outside() {
    let mut model = Model::new(10, 10, 10);
    model.add_voxel_at_pos(1, 1, 1, 1).unwrap();
    model.add_voxel_at_pos(9, 1, 1, 2).unwrap();
    model.add_voxel_at_pos(1, 5, 1, 3).unwrap();
    model.add_voxel_at_pos(4, 4, 4, 4).unwrap();
    model.set_size(5, 5, 5);
    assert_eq!(model.num_of_voxels(), 4);
    model.check_voxels_pos();
    assert_eq!(model.voxels, vec![Voxel::new(1, 1, 1, 1), Voxel::new(4, 4, 4, 4)]);
    assert_eq!(model.size, (5, 5, 5));
}

#[test]
fn retain_keeps_what_the_closure_accepts() {
    let mut model = Model::new(10, 10, 10);
    model.add_voxel_at_pos(1, 1, 1, 6).unwrap();
    model.add_voxel_at_pos(1, 1, 2, 5).unwrap();
    model.add_voxel_at_pos(1, 1, 3, 6).unwrap();
    model.add_voxel_at_pos(1, 1, 4, 7).unwrap();

    model.retain_voxels(|voxel| voxel.colorindex == 6);

    assert_eq!(2, model.num_of_voxels());
    assert_eq!(model.voxels, vec![Voxel::new(1, 1, 1, 6), Voxel::new(1, 1, 3, 6)]);
}

#[test]
fn change_replaces_every_voxel() {
    let mut model = Model::new(10, 10, 10);
    model.add_voxel_at_pos(1, 1, 1, 6).unwrap();
    model.add_voxel_at_pos(1, 1, 2, 5).unwrap();
    model.change_voxels(|voxel| Voxel { colorindex: 3, ..voxel });
    assert_eq!(model.voxels, vec![Voxel::new(1, 1, 1, 3), Voxel::new(1, 1, 2, 3)]);
}

#[test]
fn clone_is_equal_in_every_field() {
    let mut model = Model::new(10, 10, 10);
    model.add_voxel_at_pos(1, 2, 3, 4).unwrap();
    model.position = Some((1, 2, 3));
    model.rotation = Some(9);
    model.layer = Some(2);
    model.name = Some(String::from("m"));
    model.id = 5;
    let copy = model.clone();
    assert_eq!(format!("{:?}", copy), format!("{:?}", model));
}

#[test]
fn model_is_written_as_two_chunks() {
    let mut model = Model::new(3, 256, 5);
    model.add_voxel_at_pos(1, 2, 3, 4).unwrap();
    model.add_voxel_at_pos(2, 255, 4, 200).unwrap();
    assert_eq!(model.get_size(), 12);
    let mut out = vec![0xaa];
    model.write(&mut out);
    let expected: Vec<u8> = vec![
        0xaa, b'S', b'I', b'Z', b'E', 12, 0, 0, 0, 0, 0, 0, 0, 3, 0, 0, 0, 0, 1, 0, 0, 5, 0, 0,
        0, b'X', b'Y', b'Z', b'I', 12, 0, 0, 0, 0, 0, 0, 0, 2, 0, 0, 0, 1, 2, 3, 4, 2, 255, 4,
        200,
    ];
    assert_eq!(out, expected);
}

#[test]
fn model_round_trip() {
    let mut model = Model::new(3, 256, 5);
    model.add_voxel_at_pos(1, 2, 3, 4).unwrap();
    model.add_voxel_at_pos(2, 255, 4, 200).unwrap();
    model.add_voxel_at_pos(1, 2, 3, 4).unwrap();
    model.position = Some((1, 1, 1));
    let mut out = vec![0; 7];
    model.write(&mut out);
    let mut cursor = 7;
    let back = Model::read(&out, &mut cursor, 42).unwrap();
    assert_eq!(cursor, 7 + 40);
    assert_eq!(back.size, (3, 256, 5));
    assert_eq!(back.voxels, model.voxels);
    assert_eq!(back.get_id(), 42);
    assert_eq!(back.position, None);
    assert_eq!(back.rotation, None);
    assert_eq!(back.layer, None);
    assert_eq!(back.name, None);
}

#[test]
fn model_with_faults_is_refused() {
    let mut model = Model::new(3, 3, 3);
    model.add_voxel_at_pos(1, 2, 0, 4).unwrap();
    model.add_voxel_at_pos(2, 2, 2, 5).unwrap();
    let mut out = Vec::new();
    model.write(&mut out);
    for cut in 0..out.len() {
        let short = out[..cut].to_vec();
        let mut cursor = 0;
        assert_eq!(Model::read(&short, &mut cursor, 0).err(), Some(ReadError::CorruptContainer));
        assert_eq!(cursor, 0);
    }
    let mut zero = out.clone();
    zero[47] = 0;
    let mut cursor = 0;
    assert_eq!(Model::read(&zero, &mut cursor, 0).err(), Some(ReadError::InvalidArgument));
    assert_eq!(cursor, 0);
    assert_eq!(Model::read(&out, &mut -1, 0).err(), Some(ReadError::CorruptContainer));
    assert_eq!(Model::read(&out, &mut 1, 0).err(), Some(ReadError::CorruptContainer));
}

#[test]
fn model_becomes_a_transform_over_a_shape() {
    let mut model = Model::new(3, 3, 3);
    model.id = 7;
    model.name = Some(String::from("seven"));
    model.position = Some((1, -2, 3));
    model.rotation = Some(40);
    let t = model.transform_data();
    assert_eq!(t.layer, 0);
    assert_eq!(t.rotation, Some(40));
    assert_eq!(t.translation, Some((1, -2, 3)));
    model.layer = Some(4);
    assert_eq!(model.transform_data().layer, 4);

    let node = model.to_node();
    match node.node_type {
        NodeType::Transform(t) => {
            assert_eq!(t.layer, 4);
            assert_eq!(t.rotation, Some(40));
            assert_eq!(t.translation, Some((1, -2, 3)));
        }
        _ => panic!("not a transform"),
    }
    assert_eq!(node.attributes.name, Some(String::from("seven")));
    assert_eq!(node.attributes.hidden, None);
    assert_eq!(node.children.len(), 1);
    assert!(matches!(node.children[0].node_type, NodeType::Shape(7)));
    assert_eq!(node.children[0].children.len(), 0);
    assert_eq!(node.placement(), Some((7, Some((1, -2, 3)), Some(4))));
}
