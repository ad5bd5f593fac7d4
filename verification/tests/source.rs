use vex::source::{
    assemble_primitive, data_uri_payload, material_style, resolve_buffer, sequential_indices, BufferError,
    BufferSource, BufferStep, PaletteFull, PaletteKeys, PrimitiveMode, MAX_PALETTE, STYLE_DASH, STYLE_FLICKER,
};

#[test]
fn triangles_take_whole_triples() {
    let a = assemble_primitive(PrimitiveMode::Triangles, &vec![0, 1, 2, 2, 1, 3, 9]);
    assert_eq!(a.triangle_corners, vec![0, 1, 2, 2, 1, 3]);
    assert!(a.lines.is_empty());
}

#[test]
fn lines_strips_and_loops() {
    let idx = vec![4, 5, 6, 7, 8];
    assert_eq!(assemble_primitive(PrimitiveMode::Lines, &idx).lines, vec![(4, 5), (6, 7)]);
    assert_eq!(assemble_primitive(PrimitiveMode::LineStrip, &idx).lines, vec![(4, 5), (5, 6), (6, 7), (7, 8)]);
    assert_eq!(
        assemble_primitive(PrimitiveMode::LineLoop, &idx).lines,
        vec![(4, 5), (5, 6), (6, 7), (7, 8), (8, 4)]
    );
    // A two-point loop is not closed back onto itself.
    assert_eq!(assemble_primitive(PrimitiveMode::LineLoop, &vec![1, 2]).lines, vec![(1, 2)]);
    assert!(assemble_primitive(PrimitiveMode::LineStrip, &vec![1]).lines.is_empty());
}

#[test]
fn unsupported_modes_contribute_nothing() {
    for mode in [PrimitiveMode::Points, PrimitiveMode::TriangleStrip, PrimitiveMode::TriangleFan] {
        let a = assemble_primitive(mode, &vec![0, 1, 2, 3]);
        assert!(a.triangle_corners.is_empty() && a.lines.is_empty());
    }
}

#[test]
fn unindexed_primitives_count_up() {
    assert_eq!(sequential_indices(4), vec![0, 1, 2, 3]);
    assert!(sequential_indices(0).is_empty());
}

#[test]
fn palette_reuses_colors_and_caps_at_a_byte() {
    let mut palette = PaletteKeys::new();
    assert_eq!(palette.intern((1023, 0, 0)), Ok(0));
    assert_eq!(palette.intern((0, 1023, 0)), Ok(1));
    assert_eq!(palette.intern((1023, 0, 0)), Ok(0));
    for i in 2..MAX_PALETTE {
        assert_eq!(palette.intern((i as u16, 7, 7)), Ok(i as u8));
    }
    assert_eq!(palette.intern((9999, 9, 9)), Err(PaletteFull));
    assert_eq!(palette.intern((0, 1023, 0)), Ok(1), "known colors still resolve when full");
}

#[test]
fn material_names_choose_styles() {
    assert_eq!(material_style(None), 0);
    assert_eq!(material_style(Some("wall")), 0);
    assert_eq!(material_style(Some("trim-dash")), STYLE_DASH);
    assert_eq!(material_style(Some("sign_FLICKER")), STYLE_FLICKER);
    assert_eq!(material_style(Some("Dash+Flicker")), STYLE_DASH | STYLE_FLICKER);
    assert_eq!(material_style(Some("dás")), 0);
}

#[test]
fn data_uris_yield_their_payload() {
    assert_eq!(
        data_uri_payload(b"data:application/octet-stream;base64,AAEC"),
        Some(b"AAEC".to_vec())
    );
    assert_eq!(data_uri_payload(b"data:;base64,"), Some(Vec::new()));
    assert_eq!(data_uri_payload(b"mesh.bin"), None);
    assert_eq!(data_uri_payload(b"data:text/plain,hello"), None);
}

#[test]
fn buffers_come_from_the_blob_or_decode() {
    let mut blob = Some(vec![7, 8, 9]);
    match resolve_buffer(&BufferSource::Bin, &mut blob) {
        BufferStep::Bytes(b) => assert_eq!(b, vec![7, 8, 9]),
        _ => panic!("expected the binary chunk"),
    }
    assert!(blob.is_none());
    match resolve_buffer(&BufferSource::Bin, &mut blob) {
        BufferStep::Failed(e) => assert_eq!(e, BufferError::MissingBinaryChunk),
        _ => panic!("expected a missing-chunk error"),
    }

    let uri = BufferSource::Uri("data:application/octet-stream;base64,AAEC/w==".to_string());
    match resolve_buffer(&uri, &mut blob) {
        BufferStep::Bytes(b) => assert_eq!(b, vec![0, 1, 2, 255]),
        _ => panic!("expected decoded bytes"),
    }
    let bad = BufferSource::Uri("data:application/octet-stream;base64,A!==".to_string());
    assert!(matches!(resolve_buffer(&bad, &mut blob), BufferStep::Failed(BufferError::InvalidBase64(_))));
    let file = BufferSource::Uri("scene.bin".to_string());
    assert!(matches!(resolve_buffer(&file, &mut blob), BufferStep::ReadFile));
}
