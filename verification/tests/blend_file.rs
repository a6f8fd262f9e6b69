use skat_blend::blend::{
    blocks_read_through, can_read_blend_file, check_header, pointer_size_differs, read_blend_file, read_blocks,
    switch_endian, BlendEvent, Field, HeaderCheck,
};
use skat_blend::platform::{host_little_endian, is_little_endian, pointer_size};

fn head(code: &[u8], len: u32) -> Vec<u8> {
    let mut h = code.to_vec();
    h.extend_from_slice(&len.to_le_bytes());
    h.extend_from_slice(&[0u8; 16]);
    assert_eq!(h.len(), 24);
    h
}

fn id_with_name(name: &[u8]) -> Vec<u8> {
    let mut id = vec![0u8; 32];
    let mut field = name.to_vec();
    field.resize(66, 0);
    id.extend_from_slice(&field);
    id.extend_from_slice(&[0u8; 22]);
    assert_eq!(id.len(), 120);
    id
}

fn file_with(blocks: &[Vec<u8>]) -> Vec<u8> {
    let mut file = b"BLENDER-v279".to_vec();
    for b in blocks {
        file.extend_from_slice(b);
    }
    file
}

fn camera_block(lens: f32) -> Vec<u8> {
    let mut block = head(b"CA\0\0", 148);
    block.extend_from_slice(&id_with_name(b"CACamera"));
    block.extend_from_slice(&[0u8; 8]); // adt
    block.push(0); // cam_type
    block.push(0); // dtx
    block.extend_from_slice(&[0u8; 2]); // flag
    block.extend_from_slice(&[0u8; 12]); // passepartalpha, clipsta, clipend
    block.extend_from_slice(&lens.to_le_bytes());
    block
}

#[test]
fn a_header_of_a_64_bit_little_endian_file() {
    let h = check_header(&b"BLENDER-v279".to_vec());
    assert!(h == HeaderCheck::Blender {
        eighth: b'-',
        pointers_4: false,
        little_endian: true,
        version_ok: true,
        v0: b'2',
        v1: b'7',
        v2: b'9'
    });
}

#[test]
fn a_header_of_a_32_bit_big_endian_file() {
    let h = check_header(&b"BLENDER_V248rest".to_vec());
    assert!(h == HeaderCheck::Blender {
        eighth: b'_',
        pointers_4: true,
        little_endian: false,
        version_ok: true,
        v0: b'2',
        v1: b'4',
        v2: b'8'
    });
}

#[test]
fn headers_that_are_not_blender_files() {
    assert!(check_header(&b"BLEND".to_vec()) == HeaderCheck::Short { read: 5 });
    assert!(check_header(&b"NOTBLENDER12".to_vec()) == HeaderCheck::NotBlender);
    let mut cut = b"BLENDE".to_vec();
    cut.push(0xe9);
    cut.extend_from_slice(b"-v279");
    assert!(check_header(&cut) == HeaderCheck::CutInsideChar);
}

#[test]
fn a_version_that_is_not_text() {
    let mut raw = b"BLENDER-".to_vec();
    raw.push(0xe9);
    raw.extend_from_slice(b"279");
    match check_header(&raw) {
        HeaderCheck::Blender { eighth, little_endian, version_ok, .. } => {
            assert_eq!(eighth, b'-');
            assert!(!little_endian);
            assert!(!version_ok);
        }
        _ => panic!("a Blender header was expected"),
    }
}

#[test]
fn pointer_size_and_byte_order_decisions() {
    assert_eq!(pointer_size(), std::mem::size_of::<usize>());
    assert!(!pointer_size_differs(false, 8));
    assert!(pointer_size_differs(false, 4));
    assert!(!pointer_size_differs(true, 4));
    assert!(pointer_size_differs(true, 8));
    assert!(switch_endian(true, false));
    assert!(!switch_endian(false, false));
}

#[test]
fn other_blocks_are_passed_over_until_endb() {
    let mut other = head(b"GLOB", 4);
    other.extend_from_slice(&[1, 2, 3, 4]);
    let file = file_with(&[other, head(b"ENDB", 0)]);
    let events = read_blocks(&file, 12, true);
    assert!(events == vec![BlendEvent::End]);
}

#[test]
fn the_dna_block_ends_the_blocks() {
    let file = file_with(&[head(b"DNA1", 100)]);
    assert!(read_blocks(&file, 12, true) == vec![BlendEvent::Dna]);
}

#[test]
fn a_missing_block_head_is_reported() {
    let mut file = file_with(&[]);
    file.extend_from_slice(&[0u8; 10]);
    assert!(read_blocks(&file, 12, true) == vec![BlendEvent::Short { read: 10, expected: 24 }]);
    let mut other = head(b"GLOB", 40);
    other.extend_from_slice(&[0u8; 7]);
    let file = file_with(&[other]);
    assert!(read_blocks(&file, 12, true) == vec![BlendEvent::Short { read: 7, expected: 40 }]);
}

#[test]
fn a_camera_is_reported_with_its_name_and_lens() {
    let file = file_with(&[camera_block(35.0), head(b"ENDB", 0)]);
    let events = read_blocks(&file, 12, true);
    let name_start = 12 + 24 + 32;
    assert!(
        events
            == vec![
                BlendEvent::Name { start: name_start, len: 8 },
                BlendEvent::Camera { start: name_start, len: 8, cam_type: 0, lens: 35.0f32.to_bits() },
                BlendEvent::End,
            ]
    );
    assert_eq!(&file[name_start..name_start + 8], b"CACamera");
}

#[test]
fn a_code_cut_inside_a_character_cannot_be_read() {
    let file = file_with(&[head(&[b'A', b'B', b'C', 0xe9], 0)]);
    assert!(!blocks_read_through(&file, 12, true));
    let file = file_with(&[head(&[b'C', 0xc1, 0, 0], 0)]);
    assert!(!blocks_read_through(&file, 12, true));
    let file = file_with(&[head(b"ENDB", 0)]);
    assert!(blocks_read_through(&file, 12, true));
}

#[test]
fn an_object_reports_its_vectors_matrices_and_layer() {
    let mut body = id_with_name(b"OBCube");
    body.extend_from_slice(&[0u8; 344]);
    assert_eq!(body.len(), 464);
    let mut words: Vec<u32> = Vec::new();
    for k in 0..121u32 {
        words.push(1000 + k);
    }
    for w in &words {
        body.extend_from_slice(&w.to_le_bytes());
    }
    assert_eq!(body.len(), 948);
    body.extend_from_slice(&[9u8; 52]);
    let mut block = head(b"OB\0\0", 1000);
    block.extend_from_slice(&body);
    let file = file_with(&[block, head(b"ENDB", 0)]);
    let events = read_blocks(&file, 12, true);
    assert_eq!(events.len(), 1 + 14 + 20 + 1 + 1 + 1);
    assert!(events[0] == BlendEvent::Name { start: 12 + 24 + 32, len: 6 });
    assert!(
        events[1]
            == BlendEvent::Words { field: Field::Loc, row: 0, count: 3, w0: 1000, w1: 1001, w2: 1002, w3: 0 }
    );
    assert!(
        events[9]
            == BlendEvent::Words { field: Field::Quat, row: 0, count: 4, w0: 1024, w1: 1025, w2: 1026, w3: 1027 }
    );
    assert!(
        events[14]
            == BlendEvent::Words { field: Field::DrotAngle, row: 0, count: 1, w0: 1039, w1: 0, w2: 0, w3: 0 }
    );
    assert!(
        events[16]
            == BlendEvent::Words { field: Field::Obmat, row: 1, count: 4, w0: 1044, w1: 1045, w2: 1046, w3: 1047 }
    );
    assert!(events[35] == BlendEvent::Words { field: Field::Lay, row: 0, count: 1, w0: 1120, w1: 0, w2: 0, w3: 0 });
    assert!(events[36] == BlendEvent::Remaining { bytes: 52 });
    assert!(events[37] == BlendEvent::End);
}

#[test]
fn a_big_endian_word() {
    let mut body = id_with_name(b"MEGrid");
    body.extend_from_slice(&[0u8; 1200]);
    body.extend_from_slice(&[0, 0, 1, 2]);
    let mut block = head(b"ME\0\0", 1384);
    block.extend_from_slice(&body);
    let file = file_with(&[block]);
    let events = read_blocks(&file, 12, false);
    assert!(events[1] == BlendEvent::Words { field: Field::Totvert, row: 0, count: 1, w0: 258, w1: 0, w2: 0, w3: 0 });
    assert!(events[2] == BlendEvent::Short { read: 0, expected: 4 });
    assert_eq!(events.len(), 3);
}

#[test]
fn a_mesh_longer_than_its_block_is_refused() {
    let mut body = id_with_name(b"MEPlane");
    body.extend_from_slice(&[0u8; 1264]);
    let mut block = head(b"ME\0\0", 100);
    block.extend_from_slice(&body);
    let file = file_with(&[block]);
    assert!(!blocks_read_through(&file, 12, true));
}

#[test]
fn an_unknown_material_type_is_refused() {
    let mut body = id_with_name(b"MAMaterial");
    body.extend_from_slice(&[0u8; 8]);
    body.extend_from_slice(&[7, 0]);
    body.extend_from_slice(&[0u8; 100]);
    let mut block = head(b"MA\0\0", 556);
    block.extend_from_slice(&body);
    let file = file_with(&[block]);
    assert!(!blocks_read_through(&file, 12, true));
}

#[test]
fn a_material_reports_its_kinds_and_colours() {
    let mut body = id_with_name(b"MAMaterial");
    body.extend_from_slice(&[0u8; 8]);
    body.extend_from_slice(&[2, 0]);
    body.extend_from_slice(&[0u8; 2]);
    for k in 0..23u32 {
        body.extend_from_slice(&(k * 3).to_le_bytes());
    }
    body.extend_from_slice(&[0u8; 328]);
    body.extend_from_slice(&[4, 0, 1, 0]);
    assert_eq!(body.len(), 556);
    let mut block = head(b"MA\0\0", 556);
    block.extend_from_slice(&body);
    let file = file_with(&[block, head(b"ENDB", 0)]);
    let events = read_blocks(&file, 12, true);
    assert_eq!(events.len(), 1 + 1 + 23 + 2 + 1 + 1);
    assert!(events[1] == BlendEvent::Kind { field: Field::MaterialType, value: 2 });
    assert!(events[2] == BlendEvent::Words { field: Field::R, row: 0, count: 1, w0: 0, w1: 0, w2: 0, w3: 0 });
    assert!(
        events[24] == BlendEvent::Words { field: Field::Translucency, row: 0, count: 1, w0: 66, w1: 0, w2: 0, w3: 0 }
    );
    assert!(events[25] == BlendEvent::Kind { field: Field::DiffShader, value: 4 });
    assert!(events[26] == BlendEvent::Kind { field: Field::SpecShader, value: 1 });
    assert!(events[27] == BlendEvent::Remaining { bytes: 0 });
    assert!(events[28] == BlendEvent::End);
}

#[test]
fn a_struct_cut_short_in_its_id_still_reports_the_name() {
    let mut block = head(b"OB\0\0", 948);
    block.extend_from_slice(&[0u8; 50]);
    let file = file_with(&[block]);
    let events = read_blocks(&file, 12, true);
    assert!(
        events
            == vec![
                BlendEvent::Short { read: 18, expected: 66 },
                BlendEvent::Name { start: 12 + 24, len: 0 },
                BlendEvent::Short { read: 0, expected: 8 },
            ]
    );
}

#[test]
fn a_vector_cut_short_reports_the_failing_word() {
    let mut body = id_with_name(b"OBCube");
    body.extend_from_slice(&[0u8; 344]);
    body.extend_from_slice(&[0u8; 5]);
    let mut block = head(b"OB\0\0", 948);
    block.extend_from_slice(&body);
    let file = file_with(&[block]);
    let events = read_blocks(&file, 12, true);
    assert_eq!(events.len(), 2);
    assert!(events[1] == BlendEvent::Short { read: 1, expected: 4 });
}

#[test]
fn reading_a_whole_file() {
    let file = file_with(&[camera_block(50.0), head(b"ENDB", 0)]);
    assert!(can_read_blend_file(&file));
    let report = read_blend_file(&file);
    assert!(report.header
        == HeaderCheck::Blender {
            eighth: b'-',
            pointers_4: false,
            little_endian: true,
            version_ok: true,
            v0: b'2',
            v1: b'7',
            v2: b'9'
        });
    assert_eq!(report.pointer_size, std::mem::size_of::<usize>());
    assert_eq!(report.host_little, u16::from_ne_bytes([1, 0]) == 1);
    if report.pointer_size == 8 && report.host_little {
        let events = report.blocks.expect("the blocks are read");
        assert_eq!(events.len(), 3);
    } else {
        assert!(report.blocks.is_none());
    }
    assert!(can_read_blend_file(&b"BLEN".to_vec()));
    let short = read_blend_file(&b"BLEN".to_vec());
    assert!(short.header == HeaderCheck::Short { read: 4 });
    assert!(short.blocks.is_none());
}

#[test]
fn the_byte_order_of_the_machine() {
    assert!(is_little_endian(1));
    assert!(!is_little_endian(256));
    assert_eq!(host_little_endian(), u16::from_ne_bytes([1, 0]) == 1);
}

#[test]
fn files_that_cannot_be_read() {
    let mut cut = b"BLENDE".to_vec();
    cut.push(0xe9);
    cut.extend_from_slice(b"-v279");
    assert!(!can_read_blend_file(&cut));
    let mut version = b"BLENDER-".to_vec();
    version.push(0xe9);
    version.extend_from_slice(b"279");
    assert!(!can_read_blend_file(&version));
    assert!(can_read_blend_file(&b"NOTBLENDER12".to_vec()));
    let mut body = id_with_name(b"MAMaterial");
    body.extend_from_slice(&[0u8; 8]);
    body.extend_from_slice(&[7, 0]);
    body.extend_from_slice(&[0u8; 100]);
    let mut block = head(b"MA\0\0", 556);
    block.extend_from_slice(&body);
    let file = file_with(&[block]);
    // the blocks are read only on a 64-bit machine of the file's byte order
    let here = pointer_size() == 8 && host_little_endian();
    assert_eq!(can_read_blend_file(&file), !here);
}

#[test]
fn a_block_passed_over_moves_positions_on() {
    let camera = camera_block(35.0);
    let alone = file_with(&[camera.clone(), head(b"ENDB", 0)]);
    let mut other = head(b"TEST", 10);
    other.extend_from_slice(&[9u8; 10]);
    let with_other = file_with(&[other, camera, head(b"ENDB", 0)]);
    let a = read_blocks(&alone, 12, true);
    let b = read_blocks(&with_other, 12, true);
    assert_eq!(a.len(), b.len());
    assert!(a[0] == BlendEvent::Name { start: 12 + 24 + 32, len: 8 });
    assert!(b[0] == BlendEvent::Name { start: 12 + 34 + 24 + 32, len: 8 });
    assert!(a[a.len() - 1] == BlendEvent::End && b[b.len() - 1] == BlendEvent::End);
}
