use create_vox::riff::{
    find_chunk, i32_from_vec, nGRP, nSHP, nTRN, num_of_chunks, write_chunk, Dict, ReadError,
    VoxString, MATL,
};

fn text(s: &str) -> VoxString {
    VoxString::new(s.len() as i32, String::from(s))
}

fn dict(pairs: Vec<(&str, &str)>) -> Dict {
    let n = pairs.len() as i32;
    Dict { num_of_pairs: n, pairs: pairs.into_iter().map(|(k, v)| (text(k), text(v))).collect() }
}

/// An outer header followed by the chunks given, each without children.
fn container(chunks: Vec<(&str, Vec<u8>)>) -> Vec<u8> {
    let mut out = vec![b'V', b'O', b'X', b' ', 150, 0, 0, 0];
    for (tag, body) in chunks {
        write_chunk(tag, body.len() as u32, 0, &mut out);
        out.extend_from_slice(&body);
    }
    out
}

#[test]
fn riff_string() {
    let content = &[2, 0, 0, 0, 104, 105];
    let my_string = VoxString::read(&content.to_vec(), &mut 0).unwrap().content;

    assert_eq!(String::from("hi"), my_string);
}

#[test]
#[should_panic]
fn riff_string_fail() {
    let content = &[2, 0, 0, 0, 104, 105];
    let my_string = VoxString::read(&content.to_vec(), &mut 0).unwrap().content;

    assert_eq!(String::from("HI"), my_string);
}

#[test]
fn string_record_reports_size_and_moves_cursor() {
    let content = vec![2, 0, 0, 0, 104, 105];
    let mut cursor = 0;
    let record = VoxString::read(&content, &mut cursor).unwrap();
    assert_eq!(record.size, 2);
    assert_eq!(record.get_size(), 6);
    assert_eq!(cursor, 6);
}

#[test]
fn string_record_differs_from_other_text() {
    let content = vec![2, 0, 0, 0, 104, 105];
    let record = VoxString::read(&content, &mut 0).unwrap();
    assert_ne!(String::from("HI"), record.content);
}

#[test]
fn string_record_past_the_end_is_corrupt() {
    let content = vec![3, 0, 0, 0, 104, 105];
    let mut cursor = 0;
    let result = VoxString::read(&content, &mut cursor);
    assert_eq!(result.err(), Some(ReadError::CorruptContainer));
    assert_eq!(cursor, 0);
    assert_eq!(VoxString::read(&vec![1, 0, 0], &mut 0).err(), Some(ReadError::CorruptContainer));
    assert_eq!(VoxString::read(&content, &mut -1).err(), Some(ReadError::CorruptContainer));
    assert_eq!(VoxString::read(&content, &mut 4).err(), Some(ReadError::CorruptContainer));
}

#[test]
fn string_record_with_bad_utf8_violates_encoding() {
    let content = vec![2, 0, 0, 0, 0xff, 0xfe];
    let mut cursor = 0;
    let result = VoxString::read(&content, &mut cursor);
    assert_eq!(result.err(), Some(ReadError::EncodingViolation));
    assert_eq!(cursor, 0);
}

#[test]
fn string_record_round_trip() {
    let record = VoxString::from_text(String::from("grüße")).unwrap();
    assert_eq!(record.size, 7);
    let mut out = vec![9, 9];
    record.write(&mut out);
    assert_eq!(out.len(), 2 + 4 + 7);
    assert_eq!(&out[2..6], &[7, 0, 0, 0]);
    let mut cursor = 2;
    let back = VoxString::read(&out, &mut cursor).unwrap();
    assert_eq!(back.content, "grüße");
    assert_eq!(back.size, 7);
    assert_eq!(cursor, 13);
}

#[test]
fn ascii_record_and_byte_comparison() {
    let record = VoxString::from_ascii(vec![95, 116]);
    assert_eq!(record.content, "_t");
    assert_eq!(record.size, 2);
    assert!(record.is_bytes(b"_t"));
    assert!(!record.is_bytes(b"_r"));
    assert!(!record.is_bytes(b"_tt"));
}

#[test]
fn empty_dict_has_size_four_and_writes_zero_count() {
    let empty = dict(vec![]);
    assert_eq!(empty.get_size(), 4);
    let mut out = Vec::new();
    empty.write(&mut out);
    assert_eq!(out, vec![0, 0, 0, 0]);
}

#[test]
fn dict_round_trip_keeps_order() {
    let d = dict(vec![("_t", "1 2 3"), ("_r", "4"), ("_t", "again")]);
    assert_eq!(d.get_size(), 4 + (4 + 2 + 4 + 5) + (4 + 2 + 4 + 1) + (4 + 2 + 4 + 5));
    assert_eq!(d.wide_size(), 45);
    let mut out = Vec::new();
    d.write(&mut out);
    assert_eq!(out.len(), 45);
    let mut cursor = 0;
    let back = Dict::read(&out, &mut cursor).unwrap();
    assert_eq!(cursor, 45);
    assert_eq!(back.num_of_pairs, 3);
    let keys: Vec<&str> = back.pairs.iter().map(|p| p.0.content.as_str()).collect();
    let values: Vec<&str> = back.pairs.iter().map(|p| p.1.content.as_str()).collect();
    assert_eq!(keys, vec!["_t", "_r", "_t"]);
    assert_eq!(values, vec!["1 2 3", "4", "again"]);
    assert_eq!(back.get(b"_t").unwrap().content, "1 2 3");
    assert_eq!(back.get(b"_r").unwrap().content, "4");
    assert!(back.get(b"_x").is_none());
}

#[test]
fn dict_with_missing_pair_is_corrupt() {
    let mut out = Vec::new();
    dict(vec![("a", "b")]).write(&mut out);
    out[0] = 2;
    let mut cursor = 0;
    assert_eq!(Dict::read(&out, &mut cursor).err(), Some(ReadError::CorruptContainer));
    assert_eq!(cursor, 0);
    assert_eq!(Dict::read(&vec![0, 0], &mut 0).err(), Some(ReadError::CorruptContainer));
}

#[test]
fn dict_with_huge_count_is_corrupt() {
    let out = vec![0xff, 0xff, 0xff, 0xff, 0, 0, 0, 0, 0, 0, 0, 0];
    assert_eq!(Dict::read(&out, &mut 0).err(), Some(ReadError::CorruptContainer));
}

#[test]
fn dict_with_bad_text_violates_encoding() {
    let out = vec![1, 0, 0, 0, 1, 0, 0, 0, 0x80, 0, 0, 0, 0];
    assert_eq!(Dict::read(&out, &mut 0).err(), Some(ReadError::EncodingViolation));
}

#[test]
fn header_is_twelve_bytes() {
    let mut out = vec![1];
    write_chunk("nTRN", 0x01020304, 7, &mut out);
    assert_eq!(out, vec![1, b'n', b'T', b'R', b'N', 4, 3, 2, 1, 7, 0, 0, 0]);
}

#[test]
fn signed_integers_are_little_endian() {
    let bytes = vec![0xff, 0xff, 0xff, 0xff, 0x2a, 0, 0, 0, 0, 0, 0, 0x80];
    let mut pos = 0;
    assert_eq!(i32_from_vec(&bytes, &mut pos), -1);
    assert_eq!(pos, 0);
    assert_eq!(i32_from_vec(&bytes, &mut 4), 42);
    assert_eq!(i32_from_vec(&bytes, &mut 8), i32::MIN);
    assert_eq!(i32_from_vec(&bytes, &mut 1), 0x2affffff);
}

#[test]
fn transform_chunk_round_trip() {
    let chunk = nTRN {
        node_id: 5,
        node_attributes: dict(vec![("_name", "root")]),
        child_node_id: 6,
        reserved_id: -1,
        layer_id: 2,
        num_of_frames: 1,
        frame_attributes: dict(vec![("_t", "1 2 3")]),
    };
    let size = 20 + (4 + 4 + 5 + 4 + 4) + (4 + 4 + 2 + 4 + 5);
    assert_eq!(chunk.get_size(), size);
    let mut out = vec![0; 3];
    chunk.write(&mut out);
    assert_eq!(out.len() as i32, 3 + 12 + size);
    assert_eq!(&out[3..7], b"nTRN");
    assert_eq!(&out[7..11], &(size as u32).to_le_bytes());
    assert_eq!(&out[11..15], &[0, 0, 0, 0]);
    let mut cursor = 3;
    let back = nTRN::read(&out, &mut cursor).unwrap();
    assert_eq!(cursor as usize, out.len());
    assert_eq!(back.node_id, 5);
    assert_eq!(back.child_node_id, 6);
    assert_eq!(back.reserved_id, -1);
    assert_eq!(back.layer_id, 2);
    assert_eq!(back.num_of_frames, 1);
    assert_eq!(back.node_attributes.pairs[0].1.content, "root");
    assert_eq!(back.frame_attributes.pairs[0].0.content, "_t");
    assert_eq!(back.frame_attributes.pairs[0].1.content, "1 2 3");
}

#[test]
fn transform_chunk_cut_short_is_corrupt() {
    let chunk = nTRN {
        node_id: 5,
        node_attributes: dict(vec![]),
        child_node_id: 6,
        reserved_id: -1,
        layer_id: 2,
        num_of_frames: 1,
        frame_attributes: dict(vec![]),
    };
    let mut out = Vec::new();
    chunk.write(&mut out);
    for cut in 0..out.len() {
        let short = out[..cut].to_vec();
        let mut cursor = 0;
        assert_eq!(nTRN::read(&short, &mut cursor).err(), Some(ReadError::CorruptContainer));
        assert_eq!(cursor, 0);
    }
}

#[test]
fn group_chunk_round_trip() {
    let chunk = nGRP {
        node_id: 1,
        node_attributes: dict(vec![]),
        num_of_children_nodes: 3,
        child_id: vec![2, 4, -6],
    };
    assert_eq!(chunk.get_size(), 8 + 4 + 12);
    let mut out = Vec::new();
    chunk.write(&mut out);
    assert_eq!(out.len(), 12 + 24);
    assert_eq!(&out[0..4], b"nGRP");
    let mut cursor = 0;
    let back = nGRP::read(&out, &mut cursor).unwrap();
    assert_eq!(cursor, 36);
    assert_eq!(back.node_id, 1);
    assert_eq!(back.num_of_children_nodes, 3);
    assert_eq!(back.child_id, vec![2, 4, -6]);
    let short = out[..out.len() - 1].to_vec();
    assert_eq!(nGRP::read(&short, &mut 0).err(), Some(ReadError::CorruptContainer));
}

#[test]
fn shape_chunk_round_trip() {
    let chunk = nSHP {
        node_id: 9,
        node_attributes: dict(vec![("_hidden", "1")]),
        num_of_models: 1,
        model_id: 3,
        model_attributes: dict(vec![]),
    };
    assert_eq!(chunk.get_size(), 12 + (4 + 4 + 7 + 4 + 1) + 4);
    let mut out = Vec::new();
    chunk.write(&mut out);
    assert_eq!(&out[0..4], b"nSHP");
    let mut cursor = 0;
    let back = nSHP::read(&out, &mut cursor).unwrap();
    assert_eq!(cursor as usize, out.len());
    assert_eq!(back.node_id, 9);
    assert_eq!(back.num_of_models, 1);
    assert_eq!(back.model_id, 3);
    assert_eq!(back.node_attributes.pairs[0].0.content, "_hidden");
    assert_eq!(back.model_attributes.num_of_pairs, 0);
}

#[test]
fn material_chunk_round_trip() {
    let chunk = MATL { material_id: 12, properties: dict(vec![("_type", "_metal")]) };
    assert_eq!(chunk.get_size(), 4 + 4 + 4 + 5 + 4 + 6);
    let mut out = Vec::new();
    chunk.write(&mut out);
    assert_eq!(&out[0..4], b"MATL");
    let mut cursor = 0;
    let back = MATL::read(&out, &mut cursor).unwrap();
    assert_eq!(cursor as usize, out.len());
    assert_eq!(back.material_id, 12);
    assert_eq!(back.properties.pairs[0].1.content, "_metal");
}

#[test]
fn find_and_count_agree() {
    let buf = container(vec![
        ("MAIN", vec![]),
        ("SIZE", vec![0; 12]),
        ("XYZI", vec![0; 4]),
        ("SIZE", vec![0; 12]),
        ("XYZI", vec![0; 8]),
        ("RGBA", vec![0; 5]),
    ]);
    assert_eq!(num_of_chunks(&buf, String::from("SIZE")), Ok(2));
    assert_eq!(num_of_chunks(&buf, String::from("XYZI")), Ok(2));
    assert_eq!(num_of_chunks(&buf, String::from("RGBA")), Ok(1));
    assert_eq!(num_of_chunks(&buf, String::from("nTRN")), Ok(0));
    assert_eq!(num_of_chunks(&buf, String::from("SIZ")), Ok(0));
    assert_eq!(find_chunk(&buf, String::from("MAIN"), 1), Ok(8));
    assert_eq!(find_chunk(&buf, String::from("SIZE"), 1), Ok(20));
    assert_eq!(find_chunk(&buf, String::from("XYZI"), 1), Ok(44));
    assert_eq!(find_chunk(&buf, String::from("SIZE"), 2), Ok(60));
    assert_eq!(find_chunk(&buf, String::from("XYZI"), 2), Ok(84));
    assert_eq!(find_chunk(&buf, String::from("RGBA"), 1), Ok(104));
    for tag in ["MAIN", "SIZE", "XYZI", "RGBA", "nTRN"] {
        let count = num_of_chunks(&buf, String::from(tag)).unwrap();
        for n in 1..=count {
            assert!(find_chunk(&buf, String::from(tag), n).is_ok());
        }
        for n in [count + 1, count + 2, 0, -1, i32::MIN, i32::MAX] {
            assert_eq!(find_chunk(&buf, String::from(tag), n), Err(ReadError::NotFound));
        }
    }
}

#[test]
fn scan_of_short_buffers() {
    assert_eq!(num_of_chunks(&vec![], String::from("SIZE")), Ok(0));
    assert_eq!(find_chunk(&vec![], String::from("SIZE"), 1), Err(ReadError::NotFound));
    let header_only = vec![b'V', b'O', b'X', b' ', 150, 0, 0, 0];
    assert_eq!(num_of_chunks(&header_only, String::from("SIZE")), Ok(0));
    assert_eq!(find_chunk(&header_only, String::from("SIZE"), 1), Err(ReadError::NotFound));
}

#[test]
fn chunk_past_the_end_is_corrupt() {
    let mut buf = container(vec![("MAIN", vec![]), ("SIZE", vec![0; 12]), ("XYZI", vec![0; 4])]);
    buf.pop();
    assert_eq!(num_of_chunks(&buf, String::from("SIZE")), Err(ReadError::CorruptContainer));
    assert_eq!(find_chunk(&buf, String::from("XYZI"), 1), Err(ReadError::CorruptContainer));
    assert_eq!(find_chunk(&buf, String::from("RGBA"), 1), Err(ReadError::CorruptContainer));
    // The scan stops at the chunk it was asked for and never sees the fault behind it.
    assert_eq!(find_chunk(&buf, String::from("SIZE"), 1), Ok(20));
    let truncated_header = buf[..25].to_vec();
    assert_eq!(
        find_chunk(&truncated_header, String::from("SIZE"), 1),
        Err(ReadError::CorruptContainer)
    );
}
