use nested_mazes::geometry::{get_buffer_size, make_buffer};

#[test]
fn buffer_size_matches_the_layout() {
    // 12 position floats + 8 uv floats + 12 normal floats, 4 bytes each,
    // plus 6 index bytes and 2 bytes of padding.
    assert_eq!(get_buffer_size(), (12 + 8 + 12) * 4 + 6 + 2);
    assert_eq!(make_buffer().len(), get_buffer_size());
}

#[test]
fn buffer_holds_the_quad_geometry_in_float_encoding() {
    // Rebuild the expected buffer from real floating-point values: the
    // byte table in the library must match their IEEE 754 encodings.
    let positions: [f32; 12] = [
        -1.0, 0.0, 1.0, // southwest
        1.0, 0.0, 1.0, // southeast
        1.0, 0.0, -1.0, // northeast
        -1.0, 0.0, -1.0, // northwest
    ];
    let uvs: [f32; 8] = [0.0, 0.0, 1.0, 0.0, 1.0, 1.0, 0.0, 1.0];
    let normals: [f32; 12] = [0.0, 1.0, 0.0, 0.0, 1.0, 0.0, 0.0, 1.0, 0.0, 0.0, 1.0, 0.0];
    let indices: [u8; 6] = [0, 1, 2, 2, 3, 0];

    let mut expected: Vec<u8> = Vec::new();
    for component in positions {
        expected.extend_from_slice(&component.to_le_bytes());
    }
    for component in uvs {
        expected.extend_from_slice(&component.to_le_bytes());
    }
    for component in normals {
        expected.extend_from_slice(&component.to_le_bytes());
    }
    for component in indices {
        expected.push(component);
    }
    expected.push(0x00);
    expected.push(0x00);

    assert_eq!(make_buffer(), expected);
}
