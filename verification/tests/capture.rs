use base64::Engine;
use recreate::backtest::model::NodeEvidence;
use recreate::backtest::raster::{raster_tiles, rendered_content_hashes, screenshot_evidence, CaptureError};
use recreate::digest::bytes;
use recreate::oracle::network::fixture_response;

/// A small image whose every pixel differs: 40 wide, 33 high.
fn pixels() -> (u32, u32, Vec<u8>) {
    let (w, h) = (40u32, 33u32);
    let mut rgba = Vec::new();
    for y in 0..h {
        for x in 0..w {
            rgba.extend_from_slice(&[x as u8, y as u8, (x * y) as u8, 255]);
        }
    }
    (w, h, rgba)
}

fn region(w: u32, rgba: &[u8], left: u32, top: u32, width: u32, height: u32) -> Vec<u8> {
    let mut out = Vec::new();
    for y in top..top + height {
        let start = ((y * w + left) * 4) as usize;
        out.extend_from_slice(&rgba[start..start + (width * 4) as usize]);
    }
    out
}

fn png_base64(w: u32, h: u32, rgba: &[u8]) -> String {
    let image = image::RgbaImage::from_raw(w, h, rgba.to_vec()).unwrap();
    let mut png = std::io::Cursor::new(Vec::new());
    image::DynamicImage::ImageRgba8(image).write_to(&mut png, image::ImageFormat::Png).unwrap();
    base64::engine::general_purpose::STANDARD.encode(png.into_inner())
}

fn image_node(tag: &str, x: i64, y: i64, width: i64, height: i64) -> NodeEvidence {
    NodeEvidence { tag: tag.into(), visible: true, x, y, width, height, ..NodeEvidence::default() }
}

#[test]
fn an_image_is_cut_into_thirty_two_pixel_tiles_row_by_row() {
    let (w, h, rgba) = pixels();
    let tiles = raster_tiles(w, h, &rgba);
    let places: Vec<(u32, u32, u32, u32)> = tiles.iter().map(|t| (t.x, t.y, t.width, t.height)).collect();
    assert_eq!(places, vec![(0, 0, 32, 32), (32, 0, 8, 32), (0, 32, 32, 1), (32, 32, 8, 1)]);
    assert_eq!(tiles[1].sha256, bytes(&region(w, &rgba, 32, 0, 8, 32)));
    assert_eq!(tiles[2].sha256, bytes(&region(w, &rgba, 0, 32, 32, 1)));
    assert!(raster_tiles(0, 0, &Vec::new()).is_empty());
}

#[test]
fn visible_images_and_svgs_carry_the_digest_of_what_they_paint() {
    let (w, h, rgba) = pixels();
    let mut nodes = vec![
        ("a".to_string(), image_node("img", 150, 250, 1000, 500)),
        ("b".to_string(), image_node("div", 0, 0, 1000, 1000)),
        ("c".to_string(), NodeEvidence { visible: false, ..image_node("svg", 0, 0, 1000, 1000) }),
        ("d".to_string(), image_node("svg", -500, 3150, 1000, 1000)),
    ];
    assert_eq!(rendered_content_hashes(&mut nodes, w, h, &rgba), Ok(()));
    // 1.5..11.5 px wide covers columns 1..12, 2.5..7.5 px high covers rows 2..8.
    assert_eq!(nodes[0].1.rendered_content_sha256, bytes(&region(w, &rgba, 1, 2, 11, 6)));
    assert_eq!(nodes[1].1.rendered_content_sha256, "");
    assert_eq!(nodes[2].1.rendered_content_sha256, "");
    // Cut to the image: columns 0..5, rows 31..33.
    assert_eq!(nodes[3].1.rendered_content_sha256, bytes(&region(w, &rgba, 0, 31, 5, 2)));
}

#[test]
fn image_evidence_beyond_sixteen_viewports_is_refused() {
    let (w, h, rgba) = pixels();
    let mut nodes: Vec<(String, NodeEvidence)> =
        (0..17).map(|i| (format!("n{i:02}"), image_node("img", 0, 0, 4000, 3300))).collect();
    let before = nodes.clone();
    assert_eq!(rendered_content_hashes(&mut nodes, w, h, &rgba), Err(CaptureError::ContentBudgetExceeded));
    assert!(nodes.iter().zip(before.iter()).all(|(a, b)| a.1.rendered_content_sha256 == b.1.rendered_content_sha256));
    nodes.truncate(16);
    assert_eq!(rendered_content_hashes(&mut nodes, w, h, &rgba), Ok(()));
}

#[test]
fn a_screenshot_yields_its_pixel_digest_tiles_and_content_digests() {
    let (w, h, rgba) = pixels();
    let encoded = png_base64(w, h, &rgba);
    let mut nodes = vec![("a".to_string(), image_node("img", 3200, 0, 800, 3300))];
    let (digest, tiles) = screenshot_evidence(&encoded, &mut nodes).unwrap();
    assert_eq!(digest, bytes(&rgba));
    assert_eq!(tiles.len(), 4);
    assert_eq!(tiles[3].sha256, bytes(&region(w, &rgba, 32, 32, 8, 1)));
    assert_eq!(nodes[0].1.rendered_content_sha256, bytes(&region(w, &rgba, 32, 0, 8, 33)));
}

#[test]
fn a_screenshot_that_is_not_base64_or_not_png_is_refused() {
    let mut nodes = Vec::new();
    assert_eq!(screenshot_evidence("not base64!", &mut nodes).unwrap_err(), CaptureError::InvalidBase64);
    assert_eq!(screenshot_evidence("aGVsbG8=", &mut nodes).unwrap_err(), CaptureError::InvalidPng);
    assert_eq!(CaptureError::InvalidPng.message(), "screenshot is not a PNG image");
}

#[test]
fn a_fixture_response_keeps_its_status_replayable_headers_and_base64_body() {
    let headers = vec![
        ("Content-Type".to_string(), "application/json".to_string()),
        ("Content-Encoding".to_string(), "gzip".to_string()),
        ("content-length".to_string(), "5".to_string()),
        ("X-Trace".to_string(), "1".to_string()),
    ];
    let response = fixture_response(Some(404), &headers, b"hello");
    assert_eq!(response.status, 404);
    let names: Vec<&str> = response.headers.iter().map(|h| h.0.as_str()).collect();
    assert_eq!(names, vec!["Content-Type", "X-Trace"]);
    assert_eq!(response.body, "aGVsbG8=");
    assert_eq!(fixture_response(None, &Vec::new(), b"").status, 200);
    assert_eq!(fixture_response(Some(65536 + 201), &Vec::new(), b"").status, 201);
}
