use arkcursor::cursor::{
    best_entry, decode_cursor, decode_ico_image, into_cursor_image, load_ani, load_ico_file,
    load_ico_or_cur, parse_ico_container, CursorError, IconError, IcoEntry,
};

/// BITMAPINFOHEADER (40 bytes) + pixel bytes + mask bytes.
fn bmp_image(width: i32, doubled_height: i32, bitcount: u16, pixels: &[u8], mask: &[u8]) -> Vec<u8> {
    let mut v = Vec::new();
    v.extend_from_slice(&40u32.to_le_bytes());
    v.extend_from_slice(&width.to_le_bytes());
    v.extend_from_slice(&doubled_height.to_le_bytes());
    v.extend_from_slice(&1u16.to_le_bytes());
    v.extend_from_slice(&bitcount.to_le_bytes());
    v.resize(40, 0);
    v.extend_from_slice(pixels);
    v.extend_from_slice(mask);
    v
}

/// An ICO/CUR container: (width byte, height byte, hotspot x, hotspot y, image bytes).
fn container(kind: u16, entries: &[(u8, u8, u16, u16, Vec<u8>)]) -> Vec<u8> {
    let mut v = Vec::new();
    v.extend_from_slice(&0u16.to_le_bytes());
    v.extend_from_slice(&kind.to_le_bytes());
    v.extend_from_slice(&(entries.len() as u16).to_le_bytes());
    let mut offset = 6 + 16 * entries.len();
    for (w, h, hx, hy, img) in entries {
        v.push(*w);
        v.push(*h);
        v.push(0);
        v.push(0);
        v.extend_from_slice(&hx.to_le_bytes());
        v.extend_from_slice(&hy.to_le_bytes());
        v.extend_from_slice(&(img.len() as u32).to_le_bytes());
        v.extend_from_slice(&(offset as u32).to_le_bytes());
        offset += img.len();
    }
    for (_, _, _, _, img) in entries {
        v.extend_from_slice(img);
    }
    v
}

/// 2x2 32-bit image. Source rows are bottom-up BGRA.
fn two_by_two_pixels() -> Vec<u8> {
    vec![
        // bottom row (output row 1): pixel (0,1), (1,1)
        1, 2, 3, 200, 4, 5, 6, 201, //
        // top row (output row 0): pixel (0,0), (1,0)
        7, 8, 9, 202, 10, 11, 12, 203,
    ]
}

fn cur_2x2() -> Vec<u8> {
    let img = bmp_image(2, 4, 32, &two_by_two_pixels(), &[0u8; 8]);
    container(2, &[(2, 2, 1, 0, img)])
}

fn png_bytes(w: u32, h: u32) -> Vec<u8> {
    let mut img = image::RgbaImage::new(w, h);
    for (x, y, p) in img.enumerate_pixels_mut() {
        *p = image::Rgba([x as u8, y as u8, 7, 255]);
    }
    let mut out = std::io::Cursor::new(Vec::new());
    img.write_to(&mut out, image::ImageFormat::Png).unwrap();
    out.into_inner()
}

#[test]
fn cur_hotspot_and_pixels() {
    let frame = decode_cursor(&cur_2x2(), "cur").unwrap();
    assert_eq!(frame.width, 2);
    assert_eq!(frame.height, 2);
    assert_eq!(frame.hotspot, (1, 0));
    assert_eq!(
        frame.rgba,
        vec![9, 8, 7, 202, 12, 11, 10, 203, 3, 2, 1, 200, 6, 5, 4, 201]
    );
}

#[test]
fn extension_is_case_insensitive() {
    let frame = decode_cursor(&cur_2x2(), "CuR").unwrap();
    assert_eq!(frame.hotspot, (1, 0));
}

#[test]
fn alpha_from_and_mask_when_no_pixel_has_alpha() {
    let pixels = vec![1, 2, 3, 0, 4, 5, 6, 0, 7, 8, 9, 0, 10, 11, 12, 0];
    // AND rows (4 bytes each), output row 0 first: row 0 -> bit for x=1 set, row 1 -> x=0 set
    let mask = vec![0b0100_0000, 0, 0, 0, 0b1000_0000, 0, 0, 0];
    let img = bmp_image(2, 4, 32, &pixels, &mask);
    let data = container(1, &[(2, 2, 0, 0, img)]);
    let frame = load_ico_or_cur(&data).unwrap();
    assert_eq!(
        frame.rgba,
        vec![9, 8, 7, 255, 12, 11, 10, 0, 3, 2, 1, 0, 6, 5, 4, 255]
    );
}

#[test]
fn alpha_kept_without_mask() {
    let pixels = vec![1, 2, 3, 0, 4, 5, 6, 0, 7, 8, 9, 0, 10, 11, 12, 0];
    let img = bmp_image(2, 4, 32, &pixels, &[]);
    let data = container(1, &[(2, 2, 0, 0, img)]);
    let frame = load_ico_file(&data).unwrap();
    assert_eq!(frame.rgba, vec![9, 8, 7, 0, 12, 11, 10, 0, 3, 2, 1, 0, 6, 5, 4, 0]);
}

#[test]
fn header_height_smaller_than_entry() {
    // entry says 2x2, header says doubled height 2 -> 1 row
    let img = bmp_image(2, 2, 32, &[1, 2, 3, 4, 5, 6, 7, 8], &[]);
    let data = container(1, &[(2, 2, 0, 0, img)]);
    let frame = load_ico_or_cur(&data).unwrap();
    assert_eq!((frame.width, frame.height), (2, 1));
    assert_eq!(frame.rgba, vec![3, 2, 1, 4, 7, 6, 5, 8]);
}

#[test]
fn container_directory() {
    let big = bmp_image(3, 6, 32, &[0u8; 36], &[]);
    let data = container(2, &[(0, 0, 5, 6, vec![0u8; 4]), (3, 3, 1, 2, big)]);
    let (entries, kind) = parse_ico_container(&data, Some(2)).unwrap();
    assert_eq!(kind, 2);
    assert_eq!(entries.len(), 2);
    assert_eq!((entries[0].width, entries[0].height), (256, 256));
    assert_eq!(entries[0].hotspot, (5, 6));
    assert_eq!(entries[1].offset as usize, 6 + 32 + 4);
    assert_eq!(entries[1].size, 76);
}

#[test]
fn announced_entries_beyond_the_file_are_dropped() {
    let mut data = container(1, &[(2, 2, 0, 0, vec![])]);
    data[4] = 5; // announces five entries, one fits
    let (entries, _) = parse_ico_container(&data, None).unwrap();
    assert_eq!(entries.len(), 1);
}

#[test]
fn largest_entry_wins_last_on_ties() {
    let e = |w: u32, hx: i32| IcoEntry { width: w, height: w, hotspot: (hx, 0), size: 0, offset: 0 };
    let entries = vec![e(16, 1), e(32, 2), e(24, 3), e(32, 4), e(8, 5)];
    assert_eq!(best_entry(&entries).hotspot, (4, 0));
    let single = vec![e(16, 9)];
    assert_eq!(best_entry(&single).hotspot, (9, 0));
}

#[test]
fn best_entry_is_decoded() {
    let small = bmp_image(1, 2, 32, &[1, 2, 3, 4], &[]);
    let large = bmp_image(2, 4, 32, &two_by_two_pixels(), &[]);
    let data = container(2, &[(1, 1, 0, 0, small), (2, 2, 1, 1, large)]);
    let frame = decode_cursor(&data, "cur").unwrap();
    assert_eq!((frame.width, frame.height, frame.hotspot), (2, 2, (1, 1)));
}

#[test]
fn container_errors() {
    assert!(matches!(parse_ico_container(&[0, 0, 1], None), Err(IconError::FileTooSmall)));
    let ico = container(1, &[(2, 2, 0, 0, vec![])]);
    assert!(matches!(
        parse_ico_container(&ico, Some(2)),
        Err(IconError::ContainerType { found: 1, expected: 2 })
    ));
    assert!(matches!(
        decode_cursor(&ico, "cur"),
        Err(CursorError::InvalidCur(IconError::ContainerType { found: 1, expected: 2 }))
    ));
    let empty = container(1, &[]);
    assert!(matches!(load_ico_or_cur(&empty), Err(IconError::NoImages)));
    assert!(matches!(decode_cursor(&empty, "ico"), Err(CursorError::Icon(IconError::NoImages))));
}

#[test]
fn image_errors() {
    let e = IcoEntry { width: 2, height: 2, hotspot: (0, 0), size: 100, offset: 0 };
    assert!(matches!(decode_ico_image(&[0u8; 50], &e), Err(IconError::OutOfBounds)));

    let short = container(1, &[(2, 2, 0, 0, vec![0u8; 39])]);
    assert!(matches!(load_ico_or_cur(&short), Err(IconError::TruncatedHeader)));

    let depth = container(1, &[(2, 2, 0, 0, bmp_image(2, 4, 24, &[0u8; 16], &[]))]);
    assert!(matches!(load_ico_or_cur(&depth), Err(IconError::UnsupportedBitDepth(24))));

    let zero = container(1, &[(2, 2, 0, 0, bmp_image(2, 0, 32, &[0u8; 16], &[]))]);
    assert!(matches!(load_ico_or_cur(&zero), Err(IconError::ZeroSizeFrame)));

    let truncated = container(1, &[(2, 2, 0, 0, bmp_image(2, 4, 32, &[0u8; 15], &[]))]);
    assert!(matches!(load_ico_or_cur(&truncated), Err(IconError::TruncatedXorMask)));

    let mut bad_png = vec![0x89, b'P', b'N', b'G', 0, 0, 0, 0, 0, 0];
    bad_png.resize(20, 0);
    let bad = container(1, &[(2, 2, 0, 0, bad_png.clone())]);
    match load_ico_or_cur(&bad) {
        Err(IconError::PngFrame(m)) => {
            assert_eq!(m, image::load_from_memory(&bad_png).unwrap_err().to_string())
        }
        other => panic!("unexpected {:?}", other.map(|f| f.width)),
    }
}

#[test]
fn png_frame_inside_icon_keeps_entry_hotspot() {
    let png = png_bytes(3, 2);
    let data = container(2, &[(3, 2, 2, 1, png)]);
    let frame = decode_cursor(&data, "cur").unwrap();
    assert_eq!((frame.width, frame.height, frame.hotspot), (3, 2, (2, 1)));
    assert_eq!(frame.rgba.len(), 24);
    assert_eq!(&frame.rgba[0..4], &[0, 0, 7, 255]);
    assert_eq!(&frame.rgba[4..8], &[1, 0, 7, 255]);
}

#[test]
fn png_file_hotspot_is_center() {
    let frame = decode_cursor(&png_bytes(5, 4), "PNG").unwrap();
    assert_eq!((frame.width, frame.height, frame.hotspot), (5, 4, (2, 2)));
    assert_eq!(frame.rgba.len(), 5 * 4 * 4);
    match decode_cursor(&[1, 2, 3], "png") {
        Err(CursorError::Png(m)) => {
            assert!(!m.is_empty());
            assert_eq!(m, image::load_from_memory(&[1, 2, 3]).unwrap_err().to_string());
        }
        other => panic!("unexpected {:?}", other.map(|f| f.width)),
    }
}

#[test]
fn unsupported_extension() {
    match decode_cursor(&[0u8; 10], "BMP") {
        Err(CursorError::UnsupportedFormat(e)) => assert_eq!(e, "bmp"),
        other => panic!("unexpected {:?}", other.map(|f| f.width)),
    }
}

fn chunk(id: &[u8; 4], body: &[u8]) -> Vec<u8> {
    let mut v = Vec::new();
    v.extend_from_slice(id);
    v.extend_from_slice(&(body.len() as u32).to_le_bytes());
    v.extend_from_slice(body);
    if body.len() % 2 == 1 {
        v.push(0);
    }
    v
}

fn ani(chunks: &[Vec<u8>]) -> Vec<u8> {
    let mut body = b"ACON".to_vec();
    for c in chunks {
        body.extend_from_slice(c);
    }
    let mut v = b"RIFF".to_vec();
    v.extend_from_slice(&(body.len() as u32).to_le_bytes());
    v.extend_from_slice(&body);
    v
}

fn icon_with_hotspot(hx: u16, hy: u16) -> Vec<u8> {
    let img = bmp_image(1, 2, 32, &[1, 2, 3, 4], &[]);
    container(2, &[(1, 1, hx, hy, img)])
}

fn fram_list(icons: &[Vec<u8>]) -> Vec<u8> {
    let mut body = b"fram".to_vec();
    for i in icons {
        body.extend_from_slice(&chunk(b"icon", i));
    }
    chunk(b"LIST", &body)
}

#[test]
fn ani_first_frame_in_file_order() {
    let data = ani(&[
        chunk(b"anih", &[0u8; 36]),
        fram_list(&[icon_with_hotspot(3, 4), icon_with_hotspot(5, 6)]),
    ]);
    let frame = load_ani(&data).unwrap();
    assert_eq!(frame.hotspot, (3, 4));
    assert_eq!(decode_cursor(&data, "ani").unwrap().hotspot, (3, 4));
}

#[test]
fn ani_play_order_picks_frame() {
    let mut seq = Vec::new();
    seq.extend_from_slice(&1u32.to_le_bytes());
    seq.extend_from_slice(&0u32.to_le_bytes());
    let data = ani(&[
        chunk(b"seq ", &seq),
        fram_list(&[icon_with_hotspot(3, 4), icon_with_hotspot(5, 6)]),
    ]);
    // icons met after a 'seq ' chunk append their own indices to its order
    assert_eq!(load_ani(&data).unwrap().hotspot, (5, 6));
    let data = ani(&[
        fram_list(&[icon_with_hotspot(3, 4), icon_with_hotspot(5, 6)]),
        chunk(b"seq ", &seq),
    ]);
    assert_eq!(load_ani(&data).unwrap().hotspot, (5, 6));
}

#[test]
fn ani_play_order_out_of_range_clamps() {
    let data = ani(&[
        fram_list(&[icon_with_hotspot(3, 4), icon_with_hotspot(5, 6)]),
        chunk(b"seq ", &9u32.to_le_bytes()),
    ]);
    assert_eq!(load_ani(&data).unwrap().hotspot, (5, 6));
}

#[test]
fn ani_errors() {
    assert!(matches!(load_ani(b"RIFF0000ACO"), Err(CursorError::NotAni)));
    assert!(matches!(load_ani(b"RIFX0000ACON"), Err(CursorError::NotAni)));
    let none = ani(&[chunk(b"anih", &[0u8; 36])]);
    assert!(matches!(load_ani(&none), Err(CursorError::NoAniFrames)));
    let bad = ani(&[fram_list(&[vec![0u8; 3]])]);
    assert!(matches!(
        load_ani(&bad),
        Err(CursorError::EmbeddedIcon(IconError::FileTooSmall))
    ));
    // a chunk that runs past the end stops the walk
    let mut cut = ani(&[fram_list(&[icon_with_hotspot(1, 1)])]);
    cut.extend_from_slice(b"icon");
    cut.extend_from_slice(&1000u32.to_le_bytes());
    assert_eq!(load_ani(&cut).unwrap().hotspot, (1, 1));
}

#[test]
fn cursor_image_from_frame() {
    let frame = decode_cursor(&cur_2x2(), "cur").unwrap();
    let img = into_cursor_image(frame);
    assert_eq!((img.width, img.height, img.hotspot), (2, 2, (1, 0)));
    let copy = img.clone();
    assert_eq!(copy.rgba, img.rgba);
}

#[test]
fn scaling_resamples_pixels() {
    let frame = decode_cursor(&cur_2x2(), "cur").unwrap();
    let scaled = arkcursor::cursor::scale_frame(&frame, 4, 4, (2, 0)).unwrap();
    assert_eq!((scaled.width, scaled.height, scaled.hotspot), (4, 4, (2, 0)));
    assert_eq!(scaled.rgba.len(), 64);
    let same = arkcursor::cursor::scale_frame(&frame, 2, 2, (1, 0)).unwrap();
    assert_eq!(same.rgba, frame.rgba);
    let broken = arkcursor::cursor::RawFrame { width: 3, height: 3, hotspot: (0, 0), rgba: vec![0; 10] };
    assert!(arkcursor::cursor::scale_frame(&broken, 8, 8, (0, 0)).is_none());
}

#[test]
fn ico_hotspot_is_center() {
    // in an .ico the entry bytes 4..8 are planes and bit count, not a hotspot
    let img = bmp_image(2, 4, 32, &two_by_two_pixels(), &[]);
    let data = container(1, &[(2, 2, 1, 32, img)]);
    let frame = decode_cursor(&data, "ico").unwrap();
    assert_eq!((frame.width, frame.height, frame.hotspot), (2, 2, (1, 1)));
    assert_eq!(load_ico_file(&data).unwrap().hotspot, (1, 1));
    let one = container(1, &[(1, 1, 1, 32, bmp_image(1, 2, 32, &[1, 2, 3, 4], &[]))]);
    assert_eq!(decode_cursor(&one, "ICO").unwrap().hotspot, (0, 0));
    // the container-level decoder keeps the entry bytes (used for .cur and .ani frames)
    assert_eq!(load_ico_or_cur(&data).unwrap().hotspot, (1, 32));
}
