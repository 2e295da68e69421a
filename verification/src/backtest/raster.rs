//! What a screenshot contributes to a recorded state: the digest of its
//! pixels, the digests of its 32-pixel tiles, and the digest of what each
//! visible image or SVG element paints. Pixels are RGBA, four bytes each,
//! row by row.
use vstd::prelude::*;
use crate::digest::{hex_of, sha256};
use crate::backtest::model::{NodeEvidence, RasterTileEvidence};

verus! {

/// The bytes of `w` pixels of row `y`, from column `left` on.
pub open spec fn row_bytes(width: nat, rgba: Seq<u8>, left: nat, y: nat, w: nat) -> Seq<u8> {
    rgba.subrange(((y * width + left) * 4) as int, ((y * width + left + w) * 4) as int)
}

/// The bytes of a rectangle of pixels, row after row.
pub open spec fn region_bytes(width: nat, rgba: Seq<u8>, left: nat, top: nat, w: nat, h: nat) -> Seq<u8>
    decreases h,
{
    if h == 0 {
        seq![]
    } else {
        region_bytes(width, rgba, left, top, w, (h - 1) as nat) + row_bytes(width, rgba, left, (top + h - 1) as nat, w)
    }
}

/// How many 32-pixel tiles cover a length.
pub open spec fn tile_span(length: nat) -> nat {
    (length + 31) / 32
}

/// The smaller of two numbers.
pub open spec fn least(a: nat, b: nat) -> nat {
    if a < b {
        a
    } else {
        b
    }
}

/// Tile `i`, row-major: its left, top, width and height and the digest of
/// its pixels; edge tiles are cut to the image.
pub open spec fn tile_at(width: nat, height: nat, rgba: Seq<u8>, i: nat) -> (nat, nat, nat, nat, Seq<char>) {
    let cols = tile_span(width);
    let left = (i % cols) * 32;
    let top = (i / cols) * 32;
    let w = least(32, (width - left) as nat);
    let h = least(32, (height - top) as nat);
    (left, top, w, h, hex_of(sha256(region_bytes(width, rgba, left, top, w, h))))
}

/// Every tile of an image, row by row.
pub open spec fn tiles_of(width: nat, height: nat, rgba: Seq<u8>) -> Seq<(nat, nat, nat, nat, Seq<char>)> {
    Seq::new(tile_span(width) * tile_span(height), |i: int| tile_at(width, height, rgba, i as nat))
}

/// A tile as its position, size and digest.
pub open spec fn tile_view(t: RasterTileEvidence) -> (nat, nat, nat, nat, Seq<char>) {
    (t.x as nat, t.y as nat, t.width as nat, t.height as nat, t.sha256@)
}

proof fn lemma_row_end(width: nat, height: nat, left: nat, w: nat, y: nat)
    requires
        left + w <= width,
        y < height,
    ensures
        (y * width + left + w) * 4 <= width * height * 4,
        y * width + left <= y * width + left + w,
{
    assert((y * width + left + w) * 4 <= width * height * 4) by (nonlinear_arith)
        requires
            left + w <= width,
            y < height,
    ;
}

/// The bytes of a rectangle of pixels.
fn region(width: u32, height: u32, rgba: &Vec<u8>, left: u32, top: u32, w: u32, h: u32) -> (r: Vec<u8>)
    requires
        left + w <= width,
        top + h <= height,
        rgba@.len() >= width * height * 4,
    ensures
        r@ == region_bytes(width as nat, rgba@, left as nat, top as nat, w as nat, h as nat),
{
    let mut r: Vec<u8> = Vec::new();
    let mut k: u32 = 0;
    while k < h
        invariant
            left + w <= width,
            top + h <= height,
            rgba@.len() >= width * height * 4,
            k <= h,
            r@ == region_bytes(width as nat, rgba@, left as nat, top as nat, w as nat, k as nat),
        decreases h - k,
    {
        let y: u32 = top + k;
        let n = rgba.len();
        proof {
            lemma_row_end(width as nat, height as nat, left as nat, w as nat, y as nat);
            assert(y as int * width as int <= 0xffff_ffff * 0xffff_ffff) by (nonlinear_arith)
                requires
                    y <= 0xffff_ffff,
                    width <= 0xffff_ffff,
                    y >= 0,
                    width >= 0,
            ;
        }
        let start: usize = ((y as u128 * width as u128 + left as u128) * 4) as usize;
        let end: usize = ((y as u128 * width as u128 + left as u128 + w as u128) * 4) as usize;
        let ghost before = r@;
        let mut j: usize = start;
        while j < end
            invariant
                start <= j <= end,
                end <= rgba@.len(),
                r@ == before + rgba@.subrange(start as int, j as int),
            decreases end - j,
        {
            r.push(rgba[j]);
            j += 1;
            assert(r@ =~= before + rgba@.subrange(start as int, j as int));
        }
        k += 1;
        assert(r@ =~= region_bytes(width as nat, rgba@, left as nat, top as nat, w as nat, k as nat));
    }
    r
}

proof fn lemma_span(n: nat, k: nat)
    requires
        k * 32 >= n,
        k == 0 || (k - 1) * 32 < n,
    ensures
        k == tile_span(n),
{
    let r = n + 31 - k * 32;
    assert(0 <= r < 32);
    vstd::arithmetic::div_mod::lemma_fundamental_div_mod_converse((n + 31) as int, 32, k as int, r);
}

proof fn lemma_position(row: nat, col: nat, cols: nat)
    requires
        col < cols,
    ensures
        (row * cols + col) % cols == col,
        (row * cols + col) / cols == row,
{
    vstd::arithmetic::div_mod::lemma_fundamental_div_mod_converse((row * cols + col) as int, cols as int, row as int, col as int);
}

/// The image cut into 32-pixel tiles, row by row, each with the digest of
/// its pixels.
pub fn raster_tiles(width: u32, height: u32, rgba: &Vec<u8>) -> (r: Vec<RasterTileEvidence>)
    requires
        rgba@.len() >= width * height * 4,
    ensures
        r@.map_values(|t: RasterTileEvidence| tile_view(t)) == tiles_of(width as nat, height as nat, rgba@),
{
    let ghost cols = tile_span(width as nat);
    let mut r: Vec<RasterTileEvidence> = Vec::new();
    let mut row: u64 = 0;
    let mut top: u64 = 0;
    while top < height as u64
        invariant
            rgba@.len() >= width * height * 4,
            cols == tile_span(width as nat),
            top == row * 32,
            top <= height + 32,
            row == 0 || (row - 1) * 32 < height,
            r@.len() == row * cols,
            forall|j: int| 0 <= j < r@.len() ==> tile_view(#[trigger] r@[j]) == tile_at(width as nat, height as nat, rgba@, j as nat),
        decreases height + 32 - top,
    {
        let mut col: u64 = 0;
        let mut left: u64 = 0;
        while left < width as u64
            invariant
                rgba@.len() >= width * height * 4,
                cols == tile_span(width as nat),
                top == row * 32,
                top < height,
                left == col * 32,
                left <= width + 32,
                col == 0 || (col - 1) * 32 < width,
                r@.len() == row * cols + col,
                forall|j: int| 0 <= j < r@.len() ==> tile_view(#[trigger] r@[j]) == tile_at(width as nat, height as nat, rgba@, j as nat),
            decreases width + 32 - left,
        {
            let w: u32 = if (width as u64) - left < 32 { ((width as u64) - left) as u32 } else { 32 };
            let h: u32 = if (height as u64) - top < 32 { ((height as u64) - top) as u32 } else { 32 };
            let bytes = region(width, height, rgba, left as u32, top as u32, w, h);
            let hash = crate::digest::bytes(bytes.as_slice());
            let ghost i = r@.len();
            proof {
                assert(col < cols) by {
                    lemma_span(width as nat, tile_span(width as nat));
                    assert(col * 32 < width);
                    assert(cols * 32 >= width) by {
                        let k = tile_span(width as nat);
                        vstd::arithmetic::div_mod::lemma_fundamental_div_mod((width + 31) as int, 32);
                    }
                }
                lemma_position(row as nat, col as nat, cols);
            }
            r.push(RasterTileEvidence { x: left as u32, y: top as u32, width: w, height: h, sha256: hash });
            proof {
                assert(tile_view(r@[i as int]) == tile_at(width as nat, height as nat, rgba@, i as nat));
            }
            col += 1;
            left += 32;
        }
        proof {
            lemma_span(width as nat, col as nat);
            assert(r@.len() == (row + 1) * cols) by (nonlinear_arith)
                requires
                    r@.len() == row * cols + col,
                    col == cols,
            ;
        }
        row += 1;
        top += 32;
    }
    proof {
        lemma_span(height as nat, row as nat);
        assert(r@.len() == cols * tile_span(height as nat)) by (nonlinear_arith)
            requires
                r@.len() == row * cols,
                row == tile_span(height as nat),
        ;
        assert(r@.map_values(|t: RasterTileEvidence| tile_view(t)) =~= tiles_of(width as nat, height as nat, rgba@));
    }
    r
}

/// Why a screenshot yields no evidence.
#[derive(Clone, Copy, Debug, PartialEq, Eq, Structural)]
pub enum CaptureError {
    InvalidBase64,
    InvalidPng,
    ContentBudgetExceeded,
}

/// What a reader is told when a screenshot yields no evidence.
pub open spec fn capture_message(e: CaptureError) -> Seq<char> {
    match e {
        CaptureError::InvalidBase64 => "screenshot is not valid base64"@,
        CaptureError::InvalidPng => "screenshot is not a PNG image"@,
        CaptureError::ContentBudgetExceeded => "rendered image and SVG evidence exceeded viewport budget"@,
    }
}

impl CaptureError {
    pub fn message(&self) -> (r: &'static str)
        ensures
            r@ == capture_message(*self),
    {
        match self {
            CaptureError::InvalidBase64 => "screenshot is not valid base64",
            CaptureError::InvalidPng => "screenshot is not a PNG image",
            CaptureError::ContentBudgetExceeded => "rendered image and SVG evidence exceeded viewport budget",
        }
    }
}

/// A position in hundredths of a pixel rounded down to a whole pixel and
/// held within `0..=limit`.
pub open spec fn floor_within(v: int, limit: nat) -> nat {
    if v <= 0 {
        0
    } else {
        least((v / 100) as nat, limit)
    }
}

/// A position in hundredths of a pixel rounded up to a whole pixel and
/// held within `0..=limit`.
pub open spec fn ceil_within(v: int, limit: nat) -> nat {
    if v <= 0 {
        0
    } else {
        least(((v + 99) / 100) as nat, limit)
    }
}

/// An element whose painted content is hashed: a visible image or SVG.
pub open spec fn paints_content(n: NodeEvidence) -> bool {
    n.visible && (n.tag@ == "img"@ || n.tag@ == "svg"@)
}

/// The pixels such an element covers within the image, as left, top,
/// width and height, where they are not empty.
pub open spec fn content_rect(n: NodeEvidence, width: nat, height: nat) -> Option<(nat, nat, nat, nat)> {
    let left = floor_within(n.x as int, width);
    let top = floor_within(n.y as int, height);
    let right = ceil_within(n.x + n.width, width);
    let bottom = ceil_within(n.y + n.height, height);
    if paints_content(n) && left < right && top < bottom {
        Some((left, top, (right - left) as nat, (bottom - top) as nat))
    } else {
        None
    }
}

/// The pixels the elements' painted content covers in all.
pub open spec fn content_area(nodes: Seq<(String, NodeEvidence)>, width: nat, height: nat) -> nat
    decreases nodes.len(),
{
    if nodes.len() == 0 {
        0
    } else {
        content_area(nodes.drop_last(), width, height) + match content_rect(nodes.last().1, width, height) {
            Some(r) => r.2 * r.3,
            None => 0,
        }
    }
}

/// A node after hashing: an element with painted content carries the
/// digest of its pixels and is otherwise unchanged; any other node is
/// unchanged.
pub open spec fn hashed_node(before: NodeEvidence, after: NodeEvidence, width: nat, height: nat, rgba: Seq<u8>) -> bool {
    match content_rect(before, width, height) {
        Some(r) => {
            &&& after == NodeEvidence { rendered_content_sha256: after.rendered_content_sha256, ..before }
            &&& after.rendered_content_sha256@ == hex_of(sha256(region_bytes(width, rgba, r.0, r.1, r.2, r.3)))
        },
        None => after == before,
    }
}

proof fn lemma_area_prefix(nodes: Seq<(String, NodeEvidence)>, width: nat, height: nat, i: int)
    requires
        0 <= i <= nodes.len(),
    ensures
        content_area(nodes.take(i), width, height) <= content_area(nodes, width, height),
    decreases nodes.len() - i,
{
    if i < nodes.len() {
        lemma_area_prefix(nodes, width, height, i + 1);
        assert(nodes.take(i + 1).drop_last() =~= nodes.take(i));
    } else {
        assert(nodes.take(i) =~= nodes);
    }
}

fn floor_px(v: i64, limit: u32) -> (r: u32)
    ensures
        r == floor_within(v as int, limit as nat),
{
    if v <= 0 {
        0
    } else {
        let q: i64 = v / 100;
        if q > limit as i64 { limit } else { q as u32 }
    }
}

fn ceil_px(v: i128, limit: u32) -> (r: u32)
    requires
        -0x1_0000_0000_0000_0000 <= v <= 0x1_0000_0000_0000_0000,
    ensures
        r == ceil_within(v as int, limit as nat),
{
    if v <= 0 {
        0
    } else {
        let q: i128 = (v + 99) / 100;
        if q > limit as i128 { limit } else { q as u32 }
    }
}

fn is_content_tag(tag: &String) -> (r: bool)
    ensures
        r == (tag@ == "img"@ || tag@ == "svg"@),
{
    crate::text::str_eq(tag.as_str(), "img") || crate::text::str_eq(tag.as_str(), "svg")
}

fn rect_of(n: &NodeEvidence, width: u32, height: u32) -> (r: Option<(u32, u32, u32, u32)>)
    ensures
        match content_rect(*n, width as nat, height as nat) {
            Some(c) => r == Some((c.0 as u32, c.1 as u32, c.2 as u32, c.3 as u32)) && c.0 + c.2 <= width && c.1
                + c.3 <= height,
            None => r is None,
        },
{
    if !(n.visible && is_content_tag(&n.tag)) {
        return None;
    }
    let left = floor_px(n.x, width);
    let top = floor_px(n.y, height);
    let right = ceil_px(n.x as i128 + n.width as i128, width);
    let bottom = ceil_px(n.y as i128 + n.height as i128, height);
    if right <= left || bottom <= top {
        None
    } else {
        Some((left, top, right - left, bottom - top))
    }
}

/// Hashes what each visible image or SVG element paints, refusing when the
/// elements cover more than sixteen times the image in all.
pub fn rendered_content_hashes(nodes: &mut Vec<(String, NodeEvidence)>, width: u32, height: u32, rgba: &Vec<u8>) -> (r: Result<(), CaptureError>)
    requires
        rgba@.len() >= width * height * 4,
    ensures
        content_area(old(nodes)@, width as nat, height as nat) > 16 * width * height ==> r == Err::<(), CaptureError>(CaptureError::ContentBudgetExceeded) && final(nodes)@ == old(nodes)@,
        content_area(old(nodes)@, width as nat, height as nat) <= 16 * width * height ==> r is Ok && final(nodes)@.len() == old(nodes)@.len() && forall|i: int|
            0 <= i < old(nodes)@.len() ==> (#[trigger] final(nodes)@[i]).0 == old(nodes)@[i].0 && hashed_node(
                old(nodes)@[i].1,
                final(nodes)@[i].1,
                width as nat,
                height as nat,
                rgba@,
            ),
{
    assert(16 * (width as int) * (height as int) <= 16 * 0xffff_ffff * 0xffff_ffff) by (nonlinear_arith)
        requires
            width <= 0xffff_ffff,
            height <= 0xffff_ffff,
    ;
    let budget: u128 = 16 * (width as u128) * (height as u128);
    let mut captured: u128 = 0;
    let mut i: usize = 0;
    while i < nodes.len()
        invariant
            i <= nodes@.len(),
            budget == 16 * width * height,
            captured == content_area(nodes@.take(i as int), width as nat, height as nat),
            captured <= budget,
            budget <= 16 * 0xffff_ffff * 0xffff_ffff,
        decreases nodes@.len() - i,
    {
        proof {
            assert(nodes@.take(i + 1).drop_last() =~= nodes@.take(i as int));
        }
        match rect_of(&nodes[i].1, width, height) {
            Some((_, _, w, h)) => {
                assert(w as int * h as int <= 0xffff_ffff * 0xffff_ffff) by (nonlinear_arith)
                    requires
                        w <= 0xffff_ffff,
                        h <= 0xffff_ffff,
                ;
                captured = captured + (w as u128) * (h as u128);
                if captured > budget {
                    proof {
                        lemma_area_prefix(nodes@, width as nat, height as nat, i + 1);
                    }
                    return Err(CaptureError::ContentBudgetExceeded);
                }
            },
            None => {},
        }
        i += 1;
    }
    proof {
        assert(nodes@.take(i as int) =~= nodes@);
    }
    let ghost before = nodes@;
    let mut i: usize = 0;
    while i < nodes.len()
        invariant
            rgba@.len() >= width * height * 4,
            i <= nodes@.len(),
            nodes@.len() == before.len(),
            forall|j: int| i <= j < nodes@.len() ==> #[trigger] nodes@[j] == before[j],
            forall|j: int|
                0 <= j < i ==> (#[trigger] nodes@[j]).0 == before[j].0 && hashed_node(
                    before[j].1,
                    nodes@[j].1,
                    width as nat,
                    height as nat,
                    rgba@,
                ),
        decreases nodes@.len() - i,
    {
        match rect_of(&nodes[i].1, width, height) {
            Some((left, top, w, h)) => {
                let bytes = region(width, height, rgba, left, top, w, h);
                let hash = crate::digest::bytes(bytes.as_slice());
                let mut entry = nodes.remove(i);
                entry.1.rendered_content_sha256 = hash;
                nodes.insert(i, entry);
            },
            None => {},
        }
        i += 1;
    }
    Ok(())
}

/// The width, height and RGBA pixels `image` decodes a PNG to, or `None`
/// where it refuses the bytes.
pub uninterp spec fn png_rgba(png: Seq<u8>) -> Option<(u32, u32, Seq<u8>)>;

/// Decodes with `image::load_from_memory_with_format` as PNG and converts
/// with `DynamicImage::to_rgba8`, reading the buffer's `width`, `height`
/// and `into_raw`. The contract names the result, a function of the bytes
/// alone, and states what `ImageBuffer` keeps of every buffer: its raw
/// bytes hold at least four per pixel. The decoding is not stated.
#[verifier::external_body]
fn decode_png(png: &[u8]) -> (r: Option<(u32, u32, Vec<u8>)>)
    ensures
        match r {
            Some(t) => png_rgba(png@) == Some((t.0, t.1, t.2@)) && t.2@.len() >= t.0 * t.1 * 4,
            None => png_rgba(png@) is None,
        },
{
    match image::load_from_memory_with_format(png, image::ImageFormat::Png) {
        Ok(decoded) => {
            let pixels = decoded.to_rgba8();
            Some((pixels.width(), pixels.height(), pixels.into_raw()))
        },
        Err(_) => None,
    }
}

/// What a screenshot yields, or why it yields nothing: the PNG the base64
/// text decodes to, its pixels, their digest, its tiles, and each content
/// element's digest; refused when the text is not base64, the bytes are
/// not a PNG, or the content elements cover too much.
pub open spec fn screenshot_fault(encoded: Seq<char>, nodes: Seq<(String, NodeEvidence)>) -> Option<CaptureError> {
    match crate::oracle::network::base64_decoded(vstd::utf8::encode_utf8(encoded)) {
        None => Some(CaptureError::InvalidBase64),
        Some(png) => match png_rgba(png) {
            None => Some(CaptureError::InvalidPng),
            Some(img) => if content_area(nodes, img.0 as nat, img.1 as nat) > 16 * img.0 * img.1 {
                Some(CaptureError::ContentBudgetExceeded)
            } else {
                None
            },
        },
    }
}

/// The evidence of a screenshot, given as base64 PNG text: the digest of
/// its RGBA pixels and its tiles, with each visible image or SVG node's
/// painted pixels hashed into `nodes`. Refused, leaving `nodes` alone, as
/// `screenshot_fault` says.
pub fn screenshot_evidence(encoded: &str, nodes: &mut Vec<(String, NodeEvidence)>) -> (r: Result<
    (String, Vec<RasterTileEvidence>),
    CaptureError,
>)
    ensures
        match screenshot_fault(encoded@, old(nodes)@) {
            Some(e) => r == Err::<(String, Vec<RasterTileEvidence>), CaptureError>(e) && final(nodes)@ == old(nodes)@,
            None => {
                let img = png_rgba(crate::oracle::network::base64_decoded(vstd::utf8::encode_utf8(encoded@))->0)->0;
                &&& r is Ok
                &&& r->Ok_0.0@ == hex_of(sha256(img.2))
                &&& r->Ok_0.1@.map_values(|t: RasterTileEvidence| tile_view(t)) == tiles_of(img.0 as nat, img.1 as nat, img.2)
                &&& final(nodes)@.len() == old(nodes)@.len()
                &&& forall|i: int|
                    0 <= i < old(nodes)@.len() ==> (#[trigger] final(nodes)@[i]).0 == old(nodes)@[i].0 && hashed_node(
                        old(nodes)@[i].1,
                        final(nodes)@[i].1,
                        img.0 as nat,
                        img.1 as nat,
                        img.2,
                    )
            },
        },
{
    let png = match crate::oracle::network::decode_standard(encoded.as_bytes()) {
        Ok(png) => png,
        Err(_) => {
            return Err(CaptureError::InvalidBase64);
        },
    };
    let (width, height, rgba) = match decode_png(png.as_slice()) {
        Some(img) => img,
        None => {
            return Err(CaptureError::InvalidPng);
        },
    };
    let screenshot = crate::digest::bytes(rgba.as_slice());
    match rendered_content_hashes(nodes, width, height, &rgba) {
        Ok(()) => {},
        Err(e) => {
            return Err(e);
        },
    }
    let tiles = raster_tiles(width, height, &rgba);
    Ok((screenshot, tiles))
}

} // verus!
