use skat_blend::sdna::{
    can_list_blend_file, check_sdna_header, list_blend_file, list_blocks, lists_through, SdnaEvent, SdnaHeader,
};

fn head(code: &[u8], len: u32) -> Vec<u8> {
    let mut h = code.to_vec();
    h.extend_from_slice(&len.to_le_bytes());
    h.extend_from_slice(&[0u8; 16]);
    h
}

fn file_with(blocks: &[Vec<u8>]) -> Vec<u8> {
    let mut file = b"BLENDER-v279".to_vec();
    for b in blocks {
        file.extend_from_slice(b);
    }
    file
}

fn dna_body() -> Vec<u8> {
    let mut body = Vec::new();
    body.extend_from_slice(b"SDNANAME");
    body.extend_from_slice(&2u32.to_le_bytes());
    body.extend_from_slice(b"a\0bb\0");
    body.push(0);
    body.extend_from_slice(b"TYPE");
    body.extend_from_slice(&1u32.to_le_bytes());
    body.extend_from_slice(b"int\0");
    body.extend_from_slice(&[0, 0]);
    body.extend_from_slice(b"TLEN");
    body.extend_from_slice(&[4, 0]);
    body.extend_from_slice(&[0, 0]);
    body.push(0);
    body.extend_from_slice(b"STRC");
    body.extend_from_slice(&1u32.to_le_bytes());
    body.extend_from_slice(&[0, 0, 1, 0]);
    body.extend_from_slice(&[0, 0, 0, 0]);
    assert_eq!(body.len(), 57);
    body.extend_from_slice(&[7, 7, 7]);
    body
}

#[test]
fn the_structure_description_is_listed() {
    let mut dna = head(b"DNA1", 60);
    dna.extend_from_slice(&dna_body());
    let file = file_with(&[dna, head(b"ENDB", 0)]);
    let events = list_blocks(&file, 12);
    let body = 36;
    let expected = vec![
        SdnaEvent::Block { c0: b'D', c1: b'N', c2: b'A', c3: b'1', body_len: 60 },
        SdnaEvent::Part { c0: b'S', c1: b'D', c2: b'N', c3: b'A' },
        SdnaEvent::Part { c0: b'N', c1: b'A', c2: b'M', c3: b'E' },
        SdnaEvent::NrNames { count: 2 },
        SdnaEvent::Name { start: body + 12, len: 1 },
        SdnaEvent::Name { start: body + 14, len: 2 },
        SdnaEvent::Part { c0: b'T', c1: b'Y', c2: b'P', c3: b'E' },
        SdnaEvent::NrTypes { count: 1 },
        SdnaEvent::Type { start: body + 26, len: 3 },
        SdnaEvent::Part { c0: b'T', c1: b'L', c2: b'E', c3: b'N' },
        SdnaEvent::Typelens { first: 4 },
        SdnaEvent::Part { c0: b'S', c1: b'T', c2: b'R', c3: b'C' },
        SdnaEvent::NrStructs { count: 1 },
        SdnaEvent::Skip { bytes: 3 },
        SdnaEvent::Block { c0: b'E', c1: b'N', c2: b'D', c3: b'B', body_len: 0 },
    ];
    assert!(events == expected);
    assert_eq!(&file[body + 14..body + 16], b"bb");
}

#[test]
fn an_unknown_part_ends_the_description() {
    let mut body = b"SDNAXXXX".to_vec();
    body.extend_from_slice(&[0u8; 12]);
    let mut dna = head(b"DNA1", 20);
    dna.extend_from_slice(&body);
    let file = file_with(&[dna, head(b"ENDB", 0)]);
    let events = list_blocks(&file, 12);
    assert!(events[2] == SdnaEvent::Part { c0: b'X', c1: b'X', c2: b'X', c3: b'X' });
    assert!(events[3] == SdnaEvent::Skip { bytes: 12 });
    assert_eq!(events.len(), 5);
}

#[test]
fn a_name_without_its_end_stops_the_listing() {
    let mut body = b"SDNANAME".to_vec();
    body.extend_from_slice(&1u32.to_le_bytes());
    body.extend_from_slice(b"abc");
    let mut dna = head(b"DNA1", 100);
    dna.extend_from_slice(&body);
    let file = file_with(&[dna]);
    assert!(!lists_through(&file, 12));
    assert!(!can_list_blend_file(&file));
}

#[test]
fn a_camera_and_other_blocks() {
    let mut camera = head(b"CA\0\0", 150);
    let mut body = vec![0u8; 32];
    let mut name = b"CACam".to_vec();
    name.resize(66, 0);
    body.extend_from_slice(&name);
    body.resize(128, 0);
    body.push(1);
    body.resize(144, 0);
    body.extend_from_slice(&2.5f32.to_le_bytes());
    body.extend_from_slice(&[0, 0]);
    camera.extend_from_slice(&body);
    let mut other = head(b"GLOB", 2);
    other.extend_from_slice(&[1, 2]);
    let file = file_with(&[camera, other, head(b"ENDB", 0)]);
    let events = list_blocks(&file, 12);
    assert!(events[1] == SdnaEvent::Camera { start: 36 + 32, len: 5, cam_type: 1, lens: 2.5f32.to_bits() });
    assert!(events[2] == SdnaEvent::Block { c0: b'G', c1: b'L', c2: b'O', c3: b'B', body_len: 2 });
    assert_eq!(events.len(), 4);
}

#[test]
fn the_end_of_the_file_stops_the_listing() {
    let file = file_with(&[]);
    assert!(!lists_through(&file, 12));
    let file = file_with(&[head(b"ENDB", 0)]);
    assert!(lists_through(&file, 12));
}

#[test]
fn headers_for_the_listing() {
    assert!(check_sdna_header(&b"BLEND".to_vec()) == SdnaHeader::Short);
    assert!(check_sdna_header(&b"NOTBLENDER12".to_vec()) == SdnaHeader::NotBlender);
    assert!(
        check_sdna_header(&b"BLENDER_V248".to_vec())
            == SdnaHeader::Blender { pointers_4: true, little_endian: false, version_ok: true, n0: b'2', n1: b'4', n2: b'8' }
    );
    let mut raw = b"BLENDER-".to_vec();
    raw.push(0xe9);
    raw.extend_from_slice(b"279");
    match check_sdna_header(&raw) {
        SdnaHeader::Blender { pointers_4, little_endian, version_ok, .. } => {
            assert!(!pointers_4);
            assert!(!little_endian);
            assert!(!version_ok);
        }
        _ => panic!("a Blender header was expected"),
    }
    assert!(!can_list_blend_file(&b"BLEND".to_vec()));
    assert!(!can_list_blend_file(&raw));
    assert!(can_list_blend_file(&b"NOTBLENDER12".to_vec()));
    assert!(can_list_blend_file(&file_with(&[head(b"ENDB", 0)])));
    let report = list_blend_file(&file_with(&[head(b"ENDB", 0)]));
    assert_eq!(report.pointer_size, std::mem::size_of::<usize>());
    let events = report.blocks.expect("the blocks are listed");
    assert_eq!(events.len(), 1);
}

#[test]
fn codes_cut_inside_a_character_stop_the_listing() {
    let file = file_with(&[head(&[b'A', b'B', b'C', 0xe9], 0)]);
    assert!(!lists_through(&file, 12));
    let mut cut = b"BLENDE".to_vec();
    cut.push(0xe9);
    cut.extend_from_slice(b"-v279");
    assert!(check_sdna_header(&cut) == SdnaHeader::CutInsideChar);
    assert!(!can_list_blend_file(&cut));
    let mut body = b"SDNA".to_vec();
    body.extend_from_slice(&[b'N', b'A', b'M', 0xc4]);
    let mut dna = head(b"DNA1", 8);
    dna.extend_from_slice(&body);
    let file = file_with(&[dna]);
    assert!(!lists_through(&file, 12));
}
