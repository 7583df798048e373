//! Pure pixel helpers used by the renderer: fast alpha blending and
//! vertical image flipping, in exact integer arithmetic.
use vstd::prelude::*;

verus! {

/// One blended colour channel: the source channel weighted by the overlay
/// alpha plus the destination channel weighted by the remaining alpha,
/// each term truncated separately.
pub open spec fn blended_channel(src: u8, dst: u8, alpha: u8) -> int {
    (dst * alpha) / 255 + (src * (255 - alpha)) / 255
}

/// One channel of the fast blend, in integer arithmetic.
fn blend_channel(src: u8, dst: u8, alpha: u8) -> (r: u8)
    ensures
        r == blended_channel(src, dst, alpha),
{
    proof {
        assert(dst * alpha <= 255 * alpha && src * (255 - alpha) <= 255 * (255 - alpha) && 255
            * alpha <= 65025 && 255 * (255 - alpha) <= 65025 && (dst * alpha) / 255 + (src * (255
            - alpha)) / 255 <= 255) by (nonlinear_arith)
            requires
                src <= 255,
                dst <= 255,
                alpha <= 255,
        ;
    }
    let t1: u32 = (dst as u32) * (alpha as u32) / 255;
    let t2: u32 = (src as u32) * (255 - (alpha as u32)) / 255;
    (t1 + t2) as u8
}

/// Blends alpha between 2 pixels quickly.  Not a correct implementation,
/// as it ignores the background pixel's alpha: the result is always
/// opaque, and each channel mixes the two inputs by the overlay's alpha.
pub fn blend_alpha_fast(src: &[u8; 4], dst: &[u8; 4]) -> (blended: [u8; 4])
    ensures
        blended[0] == blended_channel(src[0], dst[0], dst[3]),
        blended[1] == blended_channel(src[1], dst[1], dst[3]),
        blended[2] == blended_channel(src[2], dst[2], dst[3]),
        blended[3] == 255,
{
    let mut blended: [u8; 4] = [255u8; 4];
    blended[0] = blend_channel(src[0], dst[0], dst[3]);
    blended[1] = blend_channel(src[1], dst[1], dst[3]);
    blended[2] = blend_channel(src[2], dst[2], dst[3]);
    blended[3] = 255;
    blended
}

/// Flips an RGBA pixel buffer upside down in place by swapping whole rows
/// around the horizontal midline.
pub fn flip_pixels_x_axis(pixels: &mut Vec<u8>, width: usize, height: usize)
    requires
        old(pixels)@.len() >= width * height * 4,
        width * height * 4 <= usize::MAX,
    ensures
        final(pixels)@.len() == old(pixels)@.len(),
        forall|y: int, x: int, c: int|
            #![trigger final(pixels)@[(y * width + x) * 4 + c]]
            0 <= y < height && 0 <= x < width && 0 <= c < 4 ==> final(pixels)@[(y * width + x) * 4
                + c] == old(pixels)@[((height - 1 - y) * width + x) * 4 + c],
        forall|i: int|
            width * height * 4 <= i < old(pixels)@.len() ==> #[trigger] final(pixels)@[i] == old(
                pixels,
            )@[i],
{
    let half = height / 2;
    let mut y: usize = 0;
    while y < half
        invariant
            width * height * 4 <= usize::MAX,
            pixels@.len() == old(pixels)@.len(),
            old(pixels)@.len() >= width * height * 4,
            forall|i: int|
                width * height * 4 <= i < pixels@.len() ==> #[trigger] pixels@[i] == old(
                    pixels,
                )@[i],
            2 * half <= height,
            half == height / 2,
            0 <= y <= half,
            forall|yy: int, x: int, c: int|
                #![trigger pixels@[(yy * width + x) * 4 + c]]
                0 <= x < width && 0 <= c < 4 && 0 <= yy < height ==> pixels@[(yy * width + x) * 4
                    + c] == (if yy < y || yy >= height - y {
                    old(pixels)@[((height - 1 - yy) * width + x) * 4 + c]
                } else {
                    old(pixels)@[(yy * width + x) * 4 + c]
                }),
        decreases half - y,
    {
        let mut x: usize = 0;
        while x < width
            invariant
                width * height * 4 <= usize::MAX,
                pixels@.len() == old(pixels)@.len(),
                old(pixels)@.len() >= width * height * 4,
                forall|i: int|
                    width * height * 4 <= i < pixels@.len() ==> #[trigger] pixels@[i] == old(
                        pixels,
                    )@[i],
                2 * half <= height,
                half == height / 2,
                0 <= y < half,
                0 <= x <= width,
                forall|yy: int, xx: int, c: int|
                    #![trigger pixels@[(yy * width + xx) * 4 + c]]
                    0 <= xx < width && 0 <= c < 4 && 0 <= yy < height ==> pixels@[(yy * width + xx)
                        * 4 + c] == (if yy < y || yy > height - 1 - y || (yy == y && xx < x) || (yy
                        == height - 1 - y && xx < x) {
                        old(pixels)@[((height - 1 - yy) * width + xx) * 4 + c]
                    } else {
                        old(pixels)@[(yy * width + xx) * 4 + c]
                    }),
            decreases width - x,
        {
            proof {
                lemma_pixel_index_bounds(y as int, x as int, width as int, height as int);
                lemma_pixel_index_bounds(
                    height - 1 - y as int,
                    x as int,
                    width as int,
                    height as int,
                );
            }
            let top_index: usize = (y * width + x) * 4;
            let bottom_index: usize = ((height - y - 1) * width + x) * 4;
            let mut i: usize = 0;
            while i < 4
                invariant
                    width * height * 4 <= usize::MAX,
                    pixels@.len() == old(pixels)@.len(),
                    old(pixels)@.len() >= width * height * 4,
                    forall|i: int|
                        width * height * 4 <= i < pixels@.len() ==> #[trigger] pixels@[i] == old(
                            pixels,
                        )@[i],
                    2 * half <= height,
                    half == height / 2,
                    0 <= y < half,
                    0 <= x < width,
                    0 <= i <= 4,
                    top_index == (y * width + x) * 4,
                    bottom_index == ((height - 1 - y) * width + x) * 4,
                    top_index + 4 <= width * height * 4,
                    bottom_index + 4 <= width * height * 4,
                    forall|yy: int, xx: int, c: int|
                        #![trigger pixels@[(yy * width + xx) * 4 + c]]
                        0 <= xx < width && 0 <= c < 4 && 0 <= yy < height ==> pixels@[(yy * width
                            + xx) * 4 + c] == (if yy < y || yy > height - 1 - y || (yy == y && xx
                            < x) || (yy == height - 1 - y && xx < x) || ((yy == y || yy == height - 1
                            - y) && xx == x && c < i) {
                            old(pixels)@[((height - 1 - yy) * width + xx) * 4 + c]
                        } else {
                            old(pixels)@[(yy * width + xx) * 4 + c]
                        }),
                decreases 4 - i,
            {
                let a = pixels[top_index + i];
                let b = pixels[bottom_index + i];
                let ghost pre = pixels@;
                pixels[top_index + i] = b;
                pixels[bottom_index + i] = a;
                proof {
                    assert forall|yy: int, xx: int, c: int|
                        #![trigger pixels@[(yy * width + xx) * 4 + c]]
                        0 <= xx < width && 0 <= c < 4 && 0 <= yy < height implies pixels@[(yy * width
                        + xx) * 4 + c] == (if yy < y || yy > height - 1 - y || (yy == y && xx < x)
                        || (yy == height - 1 - y && xx < x) || ((yy == y || yy == height - 1 - y)
                        && xx == x && c < i + 1) {
                        old(pixels)@[((height - 1 - yy) * width + xx) * 4 + c]
                    } else {
                        old(pixels)@[(yy * width + xx) * 4 + c]
                    }) by {
                        lemma_pixel_index_bounds(yy, xx, width as int, height as int);
                        lemma_pixel_offset_injective(
                            yy,
                            xx,
                            c,
                            y as int,
                            x as int,
                            i as int,
                            width as int,
                            height as int,
                        );
                        lemma_pixel_offset_injective(
                            yy,
                            xx,
                            c,
                            height - 1 - y,
                            x as int,
                            i as int,
                            width as int,
                            height as int,
                        );
                        assert(pixels@ == pre.update(top_index + i as int, b).update(
                            bottom_index + i as int,
                            a,
                        ));
                        if yy == y && xx == x && c == i {
                            assert((yy * width + xx) * 4 + c == top_index + i);
                            assert(pixels@[top_index + i as int] == b);
                            assert(pre[bottom_index + i as int] == old(pixels)@[((height - 1 - y)
                                * width + x) * 4 + i]);
                        } else if yy == height - 1 - y && xx == x && c == i {
                            assert((yy * width + xx) * 4 + c == bottom_index + i);
                            assert(pixels@[bottom_index + i as int] == a);
                            assert(pre[top_index + i as int] == old(pixels)@[(y * width + x) * 4
                                + i]);
                        } else {
                            assert((yy * width + xx) * 4 + c != top_index + i);
                            assert((yy * width + xx) * 4 + c != bottom_index + i);
                            assert(pixels@[(yy * width + xx) * 4 + c] == pre[(yy * width + xx) * 4
                                + c]);
                        }
                    }
                }
                i = i + 1;
            }
            x = x + 1;
        }
        y = y + 1;
    }
}

/// A pixel's byte range lies inside the buffer.
proof fn lemma_pixel_index_bounds(y: int, x: int, width: int, height: int)
    requires
        0 <= y < height,
        0 <= x < width,
    ensures
        0 <= (y * width + x) * 4,
        (y * width + x) * 4 + 4 <= width * height * 4,
{
    assert((y * width + x) * 4 + 4 <= width * height * 4 && (y * width + x) * 4 >= 0)
        by (nonlinear_arith)
        requires
            0 <= y < height,
            0 <= x < width,
    ;
}

/// Byte offsets of distinct pixel bytes are distinct.
proof fn lemma_pixel_offset_injective(
    y1: int,
    x1: int,
    c1: int,
    y2: int,
    x2: int,
    c2: int,
    width: int,
    height: int,
)
    requires
        0 <= y1 < height,
        0 <= x1 < width,
        0 <= c1 < 4,
        0 <= y2 < height,
        0 <= x2 < width,
        0 <= c2 < 4,
    ensures
        ((y1 * width + x1) * 4 + c1 == (y2 * width + x2) * 4 + c2) <==> (y1 == y2 && x1 == x2 && c1
            == c2),
{
    assert(((y1 * width + x1) * 4 + c1 == (y2 * width + x2) * 4 + c2) <==> (y1 == y2 && x1 == x2
        && c1 == c2)) by (nonlinear_arith)
        requires
            0 <= y1 < height,
            0 <= x1 < width,
            0 <= c1 < 4,
            0 <= y2 < height,
            0 <= x2 < width,
            0 <= c2 < 4,
    ;
}


/// Pixel-art text box assembly: glyph pixel rows copied from a
/// lookup-table sheet, one four-pixel cell per character, every row padded
/// to the widest line, framed by a one-pixel border.  The returned buffer
/// is exactly `width * height` RGBA pixels for the returned dimensions;
/// the glyph pixels themselves come from the sheet, so only the layout is
/// specified here.
pub fn textbox_bytes(lookup: &Vec<u8>, image_width: u32, text: &Vec<u8>) -> (r: (Vec<u8>, u32, u32))
    requires
        forall|i: int|
            0 <= i < text@.len() ==> (32 <= #[trigger] text@[i] && text@[i] <= 126) || text@[i]
                == 10,
        (126 - 32) * 12 + 6 * 4 * (image_width as int) + 12 <= lookup@.len(),
        4 * text@.len() + 2 <= u32::MAX,
        7 * text@.len() + 9 <= u32::MAX,
    ensures
        r.0@.len() == (r.1 as int) * (r.2 as int) * 4,
        r.1 >= 1,
        r.2 >= 2,
{
    let n = text.len();
    let lookup_len = lookup.len();
    proof {
        assert(lookup_len == lookup@.len());
    }
    // Widest line in pixels (four per character cell), and the line spans
    let mut line_bounds: Vec<(usize, usize)> = Vec::new();
    let mut textbox_width: u32 = 0;
    let mut line_start: usize = 0;
    let mut i: usize = 0;
    while i < n
        invariant
            n == text@.len(),
            4 * n + 2 <= u32::MAX,
            0 <= line_start <= i <= n,
            textbox_width <= 4 * n,
            line_bounds@.len() <= i,
            forall|p: int| line_start <= p < i ==> #[trigger] text@[p] != 10,
            forall|u: int|
                0 <= u < line_bounds@.len() ==> {
                    let b = #[trigger] line_bounds@[u];
                    &&& b.0 <= b.1 <= n
                    &&& 4 * (b.1 - b.0) <= textbox_width
                    &&& forall|p: int| b.0 <= p < b.1 ==> #[trigger] text@[p] != 10
                },
        decreases n - i,
    {
        if text[i] == 10 {
            let w: u32 = (4 * (i - line_start)) as u32;
            if w > textbox_width {
                textbox_width = w;
            }
            line_bounds.push((line_start, i));
            line_start = i + 1;
        }
        i = i + 1;
    }
    let w: u32 = (4 * (n - line_start)) as u32;
    if w > textbox_width {
        textbox_width = w;
    }
    line_bounds.push((line_start, n));
    proof {
        assert(line_bounds@.last() == (line_start, n));
        assert(line_bounds@.len() <= n + 1);
    }

    // Glyph rows: seven pixel rows per line, each exactly as wide as the
    // widest line, four bytes per pixel
    let nlines = line_bounds.len();
    let mut bytes: Vec<u8> = Vec::new();
    let mut li: usize = 0;
    proof {
        assert(bytes@.len() == 0);
        assert(4 * (textbox_width as int) * (7 * (li as int)) == 0) by (nonlinear_arith)
            requires
                li == 0,
        ;
    }
    while li < nlines
        invariant
            n == text@.len(),
            (126 - 32) * 12 + 6 * 4 * (image_width as int) + 12 <= lookup@.len(),
            forall|p: int|
                0 <= p < text@.len() ==> (32 <= #[trigger] text@[p] && text@[p] <= 126) || text@[p]
                    == 10,
            nlines == line_bounds@.len(),
            nlines <= n + 1,
            lookup_len == lookup@.len(),
            textbox_width <= 4 * n,
            forall|u: int|
                0 <= u < line_bounds@.len() ==> {
                    let b = #[trigger] line_bounds@[u];
                    &&& b.0 <= b.1 <= n
                    &&& 4 * (b.1 - b.0) <= textbox_width
                    &&& forall|p: int| b.0 <= p < b.1 ==> #[trigger] text@[p] != 10
                },
            0 <= li <= nlines,
            bytes@.len() == 4 * (textbox_width as int) * (7 * li),
        decreases nlines - li,
    {
        let bounds = line_bounds[li];
        let line_pixels: u32 = (4 * (bounds.1 - bounds.0)) as u32;
        let mut y: u32 = 0;
        while y < 7
            invariant
                n == text@.len(),
                (126 - 32) * 12 + 6 * 4 * (image_width as int) + 12 <= lookup@.len(),
                forall|p: int|
                    0 <= p < text@.len() ==> (32 <= #[trigger] text@[p] && text@[p] <= 126)
                        || text@[p] == 10,
                0 <= li,
                bounds.0 <= bounds.1 <= n,
                forall|p: int| bounds.0 <= p < bounds.1 ==> #[trigger] text@[p] != 10,
                line_pixels == 4 * (bounds.1 - bounds.0),
                line_pixels <= textbox_width,
                lookup_len == lookup@.len(),
                0 <= y <= 7,
                bytes@.len() == 4 * (textbox_width as int) * (7 * li + y),
            decreases 7 - y,
        {
            let ghost row_base = bytes@.len();
            let mut p: usize = bounds.0;
            while p < bounds.1
                invariant
                    n == text@.len(),
                    (126 - 32) * 12 + 6 * 4 * (image_width as int) + 12 <= lookup@.len(),
                    forall|pp: int|
                        0 <= pp < text@.len() ==> (32 <= #[trigger] text@[pp] && text@[pp] <= 126)
                            || text@[pp] == 10,
                    bounds.0 <= p <= bounds.1 <= n,
                    forall|pp: int| bounds.0 <= pp < bounds.1 ==> #[trigger] text@[pp] != 10,
                    lookup_len == lookup@.len(),
                    0 <= y < 7,
                    bytes@.len() == row_base + 16 * (p - bounds.0),
                decreases bounds.1 - p,
            {
                let ch = text[p];
                proof {
                    assert(32 <= ch && ch <= 126);
                    assert((ch - 32) * 12 + (y * image_width) * 4 + 12 <= lookup@.len()
                        && (y as int) * (image_width as int) <= lookup@.len()) by (nonlinear_arith)
                        requires
                            32 <= ch <= 126,
                            0 <= y < 7,
                            (126 - 32) * 12 + 6 * 4 * (image_width as int) + 12 <= lookup@.len(),
                    ;
                }
                let lookup_val: usize = ((ch - 32) as usize) * 12 + (y as usize) * (
                image_width as usize) * 4;
                // adds that row of the character
                let mut k: usize = 0;
                while k < 12
                    invariant
                        0 <= k <= 12,
                        lookup_val + 12 <= lookup_len,
                        lookup_len == lookup@.len(),
                        bytes@.len() == row_base + 16 * (p - bounds.0) + k,
                    decreases 12 - k,
                {
                    bytes.push(lookup[lookup_val + k]);
                    k = k + 1;
                }
                // adds the spacer pixel after the character
                bytes.push(0);
                bytes.push(0);
                bytes.push(0);
                bytes.push(0);
                p = p + 1;
            }
            // pads the row to the widest line, one blank pixel at a time
            if line_pixels < textbox_width {
                let mut pad: u32 = 0;
                while pad < textbox_width - line_pixels
                    invariant
                        line_pixels < textbox_width,
                        0 <= pad <= textbox_width - line_pixels,
                        bytes@.len() == row_base + 4 * (line_pixels as int) + 4 * pad,
                    decreases textbox_width - line_pixels - pad,
                {
                    bytes.push(0);
                    bytes.push(0);
                    bytes.push(0);
                    bytes.push(0);
                    pad = pad + 1;
                }
            }
            proof {
                assert(bytes@.len() == row_base + 4 * (textbox_width as int));
                assert(4 * (textbox_width as int) * (7 * li + y) + 4 * (textbox_width as int) == 4
                    * (textbox_width as int) * (7 * li + y + 1)) by (nonlinear_arith);
            }
            y = y + 1;
        }
        proof {
            assert(7 * li + 7 == 7 * (li + 1));
        }
        li = li + 1;
    }
    proof {
        assert(nlines <= n + 1);
        assert(7 * (nlines as int) + 2 <= u32::MAX);
    }
    let textbox_height: u32 = 2 + 7 * (nlines as u32);
    let textbox_width: u32 = textbox_width + 1;
    let bytes_len = bytes.len();
    proof {
        assert(bytes_len == bytes@.len());
        assert((textbox_height - 2) as int == 7 * (nlines as int));
        assert(bytes@.len() == 4 * ((textbox_width - 1) as int) * ((textbox_height - 2) as int));
    }

    // Frame and background around the glyph pixels
    let mut out: Vec<u8> = Vec::new();
    let mut oy: u32 = 0;
    while oy < textbox_height
        invariant
            0 <= oy <= textbox_height,
            textbox_width >= 1,
            textbox_height >= 2,
            bytes@.len() == 4 * ((textbox_width - 1) as int) * ((textbox_height - 2) as int),
            bytes_len == bytes@.len(),
            out@.len() == 4 * (textbox_width as int) * (oy as int),
        decreases textbox_height - oy,
    {
        let horizontal_wall: bool = oy == 0 || oy == textbox_height - 1;
        let mut ox: u32 = 0;
        while ox < textbox_width
            invariant
                0 <= ox <= textbox_width,
                0 <= oy < textbox_height,
                textbox_width >= 1,
                textbox_height >= 2,
                horizontal_wall == (oy == 0 || oy == textbox_height - 1),
                bytes@.len() == 4 * ((textbox_width - 1) as int) * ((textbox_height - 2) as int),
                bytes_len == bytes@.len(),
                out@.len() == 4 * (textbox_width as int) * (oy as int) + 4 * ox,
            decreases textbox_width - ox,
        {
            let vertical_wall: bool = ox == 0 || ox == textbox_width - 1;
            if horizontal_wall && vertical_wall {
                out.push(0);
                out.push(0);
                out.push(0);
                out.push(0);
            } else if vertical_wall || horizontal_wall {
                out.push(120);
                out.push(120);
                out.push(120);
                out.push(255);
            } else {
                let text_x = ox - 1;
                let text_y = oy - 1;
                proof {
                    assert((text_x as int) * 4 + (text_y as int) * ((textbox_width - 1) as int) * 4
                        + 3 < bytes@.len() && (text_y as int) * ((textbox_width - 1) as int)
                        <= bytes@.len()) by (nonlinear_arith)
                        requires
                            0 <= text_x < textbox_width - 1,
                            0 <= text_y < textbox_height - 2,
                            bytes@.len() == 4 * ((textbox_width - 1) as int) * ((textbox_height
                                - 2) as int),
                    ;
                }
                let idx: usize = (text_x as usize) * 4 + (text_y as usize) * ((textbox_width
                    - 1) as usize) * 4;
                if bytes[idx + 3] != 0 {
                    out.push(0);
                    out.push(0);
                    out.push(0);
                    out.push(255);
                } else {
                    out.push(70);
                    out.push(70);
                    out.push(70);
                    out.push(255);
                }
            }
            ox = ox + 1;
        }
        proof {
            assert(4 * (textbox_width as int) * (oy as int) + 4 * (textbox_width as int) == 4 * (
            textbox_width as int) * (oy as int + 1)) by (nonlinear_arith);
        }
        oy = oy + 1;
    }
    proof {
        assert(4 * (textbox_width as int) * (textbox_height as int) == (textbox_width as int) * (
        textbox_height as int) * 4) by (nonlinear_arith);
    }
    (out, textbox_width, textbox_height)
}

} // verus!