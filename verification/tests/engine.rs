use pydfing::error::PdfError;
use pydfing::model::{Asset, Doc, PdfBlock, TextNode};
use pydfing::reader::extract_lines;
use pydfing::render::{line_position, parse_png_dims, render};
use pydfing::wrap::wrap_line;

fn node(content: &str, font_size: i64, line_height: i64) -> TextNode {
    TextNode::new(content.as_bytes().to_vec(), font_size, line_height).unwrap()
}

fn text_block(content: &str, font_size: i64, line_height: i64, x: i64, y: i64) -> PdfBlock {
    PdfBlock::text_section(vec![node(content, font_size, line_height)], x, y).unwrap()
}

/// A minimal PNG header: signature, one chunk length, IHDR tag, then the
/// big-endian width and height fields.
fn make_png(w: u32, h: u32) -> Vec<u8> {
    let mut d = vec![137u8, 80, 78, 71, 13, 10, 26, 10];
    d.extend_from_slice(&[0, 0, 0, 13]);
    d.extend_from_slice(b"IHDR");
    d.extend_from_slice(&w.to_be_bytes());
    d.extend_from_slice(&h.to_be_bytes());
    d
}

fn read_u32le(b: &[u8], off: usize) -> u32 {
    u32::from_le_bytes([b[off], b[off + 1], b[off + 2], b[off + 3]])
}

fn read_u64le(b: &[u8], off: usize) -> u64 {
    let mut a = [0u8; 8];
    a.copy_from_slice(&b[off..off + 8]);
    u64::from_le_bytes(a)
}

fn read_coord(b: &[u8], off: usize) -> i64 {
    read_u32le(b, off) as i64 - 2147483648
}

#[test]
fn doc_new_preserves_dimensions() {
    let d = Doc::new(612, 792).unwrap();
    assert_eq!(d.width, 612);
    assert_eq!(d.height, 792);
    assert!(d.blocks.is_empty());
}

#[test]
fn doc_new_rejects_out_of_range() {
    assert_eq!(Doc::new(0, 792).unwrap_err(), PdfError::Validation);
    assert_eq!(Doc::new(612, 0).unwrap_err(), PdfError::Validation);
    assert_eq!(Doc::new(-612, 792).unwrap_err(), PdfError::Validation);
    assert_eq!(Doc::new(612, -1).unwrap_err(), PdfError::Validation);
    assert_eq!(Doc::new(4294967296, 792).unwrap_err(), PdfError::Validation);
}

#[test]
fn image_rejects_non_positive_dpi() {
    assert_eq!(
        PdfBlock::image(b"a.png".to_vec(), 0, 10, 10).unwrap_err(),
        PdfError::Validation
    );
    assert_eq!(
        PdfBlock::image(b"a.png".to_vec(), -300, 10, 10).unwrap_err(),
        PdfError::Validation
    );
}

#[test]
fn image_rejects_empty_path() {
    assert_eq!(
        PdfBlock::image(Vec::new(), 300, 10, 10).unwrap_err(),
        PdfError::Validation
    );
}

#[test]
fn text_node_rejects_non_positive_sizes() {
    assert_eq!(
        TextNode::new(b"x".to_vec(), 0, 14).unwrap_err(),
        PdfError::Validation
    );
    assert_eq!(
        TextNode::new(b"x".to_vec(), 12, -14).unwrap_err(),
        PdfError::Validation
    );
}

#[test]
fn text_section_rejects_invalid_node() {
    let bad = TextNode {
        content: b"x".to_vec(),
        font_size: 0,
        line_height: 14,
    };
    assert_eq!(
        PdfBlock::text_section(vec![bad], 0, 0).unwrap_err(),
        PdfError::Validation
    );
}

#[test]
fn with_blocks_keeps_order() {
    let d = Doc::new(612, 792).unwrap().with_blocks(vec![
        text_block("first", 12, 14, 0, 0),
        text_block("second", 12, 14, 0, 20),
    ]);
    assert_eq!(d.blocks.len(), 2);
    match &d.blocks[0] {
        PdfBlock::TextSection { nodes, .. } => assert_eq!(nodes[0].content, b"first".to_vec()),
        _ => panic!("wrong block kind"),
    }
    match &d.blocks[1] {
        PdfBlock::TextSection { nodes, .. } => assert_eq!(nodes[0].content, b"second".to_vec()),
        _ => panic!("wrong block kind"),
    }
}

#[test]
fn wrap_breaks_at_last_space() {
    let lines = wrap_line(&b"Hello world".to_vec(), 5);
    assert_eq!(lines.len(), 2);
    assert_eq!(lines[0], b"Hello".to_vec());
    assert_eq!(lines[1], b"world".to_vec());
}

#[test]
fn wrap_hard_breaks_without_space() {
    let lines = wrap_line(&b"abcdef".to_vec(), 3);
    assert_eq!(lines, vec![b"abc".to_vec(), b"def".to_vec()]);
}

#[test]
fn wrap_empty_content_is_one_empty_line() {
    let lines = wrap_line(&Vec::new(), 10);
    assert_eq!(lines, vec![Vec::<u8>::new()]);
}

#[test]
fn wrap_repeated_spaces() {
    let lines = wrap_line(&b"ab cd ef".to_vec(), 4);
    assert_eq!(
        lines,
        vec![b"ab".to_vec(), b"cd".to_vec(), b"ef".to_vec()]
    );
}

#[test]
fn png_dims_read_from_header() {
    assert_eq!(parse_png_dims(&make_png(100, 50)), Some((100, 50)));
    assert_eq!(parse_png_dims(&b"not a png at all.......".to_vec()), None);
    assert_eq!(parse_png_dims(&make_png(0, 50)), None);
}

#[test]
fn render_is_deterministic() {
    let doc = Doc::new(612, 792)
        .unwrap()
        .with_blocks(vec![text_block("Hello world", 12, 14, 72, 720)]);
    let assets: Vec<Asset> = Vec::new();
    let first = render(&doc, &assets).unwrap();
    let second = render(&doc, &assets).unwrap();
    assert_eq!(first, second);
}

#[test]
fn render_order_matters_for_distinct_blocks() {
    let a = text_block("aaaa", 12, 14, 72, 100);
    let b = text_block("bbbb", 12, 14, 72, 100);
    let d1 = Doc::new(612, 792).unwrap().with_blocks(vec![a.clone(), b.clone()]);
    let d2 = Doc::new(612, 792).unwrap().with_blocks(vec![b, a]);
    let assets: Vec<Asset> = Vec::new();
    assert_ne!(render(&d1, &assets).unwrap(), render(&d2, &assets).unwrap());
}

#[test]
fn render_order_of_identical_blocks_is_invisible() {
    let a = text_block("same", 12, 14, 72, 100);
    let b = text_block("same", 12, 14, 72, 100);
    let d1 = Doc::new(612, 792).unwrap().with_blocks(vec![a.clone(), b.clone()]);
    let d2 = Doc::new(612, 792).unwrap().with_blocks(vec![b, a]);
    let assets: Vec<Asset> = Vec::new();
    assert_eq!(render(&d1, &assets).unwrap(), render(&d2, &assets).unwrap());
}

#[test]
fn hello_scenario_renders_one_line_at_position() {
    let doc = Doc::new(612, 792)
        .unwrap()
        .with_blocks(vec![text_block("Hello", 12, 14, 72, 720)]);
    let assets: Vec<Asset> = Vec::new();
    let art = render(&doc, &assets).unwrap();
    assert_eq!(&art[0..5], &[80u8, 68, 70, 66, 1]);
    assert_eq!(read_u32le(&art, 5), 612);
    assert_eq!(read_u32le(&art, 9), 792);
    assert_eq!(read_u64le(&art, 13), 1);
    assert_eq!(art[21], 2);
    assert_eq!(read_coord(&art, 22), 72);
    assert_eq!(read_coord(&art, 26), 720);
    assert_eq!(read_u64le(&art, 30), 1);
    assert_eq!(read_u32le(&art, 38), 12);
    assert_eq!(read_u32le(&art, 42), 14);
    assert_eq!(read_u64le(&art, 46), 1);
    assert_eq!(read_u64le(&art, 54), 5);
    assert_eq!(&art[62..67], b"Hello");
    assert_eq!(art.len(), 67);
    let extracted = String::from_utf8(art[62..67].to_vec()).unwrap();
    assert_eq!(extracted, "Hello");
    assert_eq!(extract_lines(&art), Some(vec![b"Hello".to_vec()]));
    assert_eq!(line_position(720, 14, 0), Some(720));
}

#[test]
fn missing_asset_yields_asset_load_error() {
    let doc = Doc::new(612, 792).unwrap().with_blocks(vec![PdfBlock::image(
        b"missing.png".to_vec(),
        300,
        10,
        10,
    )
    .unwrap()]);
    let assets: Vec<Asset> = Vec::new();
    assert_eq!(render(&doc, &assets).unwrap_err(), PdfError::AssetLoad);
}

#[test]
fn undecodable_asset_yields_asset_load_error() {
    let doc = Doc::new(612, 792).unwrap().with_blocks(vec![PdfBlock::image(
        b"bad.png".to_vec(),
        300,
        10,
        10,
    )
    .unwrap()]);
    let assets = vec![Asset {
        path: b"bad.png".to_vec(),
        data: b"junk".to_vec(),
    }];
    assert_eq!(render(&doc, &assets).unwrap_err(), PdfError::AssetLoad);
}

#[test]
fn image_block_placed_size_is_scaled_by_dpi() {
    let doc = Doc::new(612, 792).unwrap().with_blocks(vec![PdfBlock::image(
        b"img.png".to_vec(),
        100,
        5,
        -7,
    )
    .unwrap()]);
    let png = make_png(100, 50);
    let assets = vec![Asset {
        path: b"img.png".to_vec(),
        data: png.clone(),
    }];
    let art = render(&doc, &assets).unwrap();
    assert_eq!(art[21], 1);
    assert_eq!(read_coord(&art, 22), 5);
    assert_eq!(read_coord(&art, 26), -7);
    assert_eq!(read_u64le(&art, 30), 72);
    assert_eq!(read_u64le(&art, 38), 36);
    assert_eq!(read_u64le(&art, 46), png.len() as u64);
    assert_eq!(&art[54..54 + png.len()], png.as_slice());
}

/// Walks the artifact exactly as the format prescribes: images are
/// skipped by their length prefixes, text lines are collected in order.
fn collect_text_lines(art: &[u8]) -> Vec<Vec<u8>> {
    assert_eq!(&art[0..5], &[80u8, 68, 70, 66, 1]);
    let block_count = read_u64le(art, 13);
    let mut lines: Vec<Vec<u8>> = Vec::new();
    let mut off: usize = 21;
    for _ in 0..block_count {
        match art[off] {
            1 => {
                let data_len = read_u64le(art, off + 25) as usize;
                off += 33 + data_len;
            }
            2 => {
                let node_count = read_u64le(art, off + 9);
                off += 17;
                for _ in 0..node_count {
                    let line_count = read_u64le(art, off + 8);
                    off += 16;
                    for _ in 0..line_count {
                        let len = read_u64le(art, off) as usize;
                        lines.push(art[off + 8..off + 8 + len].to_vec());
                        off += 8 + len;
                    }
                }
            }
            other => panic!("unknown block tag {other}"),
        }
    }
    assert_eq!(off, art.len());
    lines
}

#[test]
fn mixed_document_text_survives_round_trip() {
    let image = PdfBlock::image(b"img.png".to_vec(), 72, 0, 0).unwrap();
    let section = PdfBlock::text_section(
        vec![node("Hello world", 360, 14), node("abcdef", 240, 6)],
        72,
        720,
    )
    .unwrap();
    let doc = Doc::new(612, 792).unwrap().with_blocks(vec![image, section]);
    let assets = vec![Asset {
        path: b"img.png".to_vec(),
        data: make_png(10, 10),
    }];
    let art = render(&doc, &assets).unwrap();
    // 540 units of room after the origin: the 360-unit font advances 180
    // per byte (three columns), the 240-unit font 120 (four columns).
    let lines = collect_text_lines(&art);
    let expected: Vec<Vec<u8>> = vec![
        b"Hel".to_vec(),
        b"lo".to_vec(),
        b"wor".to_vec(),
        b"ld".to_vec(),
        b"abcd".to_vec(),
        b"ef".to_vec(),
    ];
    assert_eq!(lines, expected);
    assert_eq!(extract_lines(&art), Some(expected));
}

#[test]
fn extract_lines_rejects_malformed_bytes() {
    assert_eq!(extract_lines(&Vec::new()), None);
    assert_eq!(extract_lines(&b"not an artifact, but long enough".to_vec()), None);
    let doc = Doc::new(612, 792)
        .unwrap()
        .with_blocks(vec![text_block("Hello", 12, 14, 72, 720)]);
    let mut art = render(&doc, &Vec::new()).unwrap();
    art.pop();
    assert_eq!(extract_lines(&art), None);
}

#[test]
fn line_position_advances_by_line_height() {
    assert_eq!(line_position(720, 14, 0), Some(720));
    assert_eq!(line_position(720, 14, 2), Some(748));
    assert_eq!(line_position(-10, 7, 3), Some(11));
    assert_eq!(line_position(0, u32::MAX, u64::MAX), None);
}

#[test]
fn error_labels_name_each_kind() {
    assert_eq!(PdfError::Validation.label(), "invalid input value");
    assert_eq!(PdfError::AssetLoad.label(), "image asset missing or undecodable");
    assert_eq!(PdfError::Encoding.label(), "internal encoding failure");
    assert_eq!(PdfError::Io.label(), "destination not writable");
}
