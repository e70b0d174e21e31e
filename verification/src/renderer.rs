//! The cursor sprite and its compositing onto a frame: bilinear sampling
//! at a sub-pixel position and alpha blending over the frame's pixels.
use crate::fixed::{clamp_int, div_floor, lemma_mul_bounded};
use vstd::prelude::*;

verus! {

/// A cursor image: `width * height` pixels of four bytes each, red, green,
/// blue and alpha, row by row.
pub struct CursorSprite {
    pub data: Vec<u8>,
    pub width: u32,
    pub height: u32,
}

impl CursorSprite {
    /// The data holds exactly four bytes for each pixel.
    pub open spec fn wf(&self) -> bool {
        self.data@.len() == self.width * self.height * 4
    }

    /// Whether the data holds exactly four bytes for each pixel.
    pub fn is_well_formed(&self) -> (ok: bool)
        ensures
            ok == self.wf(),
    {
        proof {
            lemma_mul_bounded(self.width as int, 0xffff_ffff, self.height as int, 0xffff_ffff);
            assert(self.width * self.height >= 0) by (nonlinear_arith)
                requires
                    self.width >= 0,
                    self.height >= 0,
            ;
        }
        let need: u128 = (self.width as u128) * (self.height as u128) * 4;
        self.data.len() as u128 == need
    }
}

/// Why no sprite could be made.
#[derive(Clone, Copy, Debug, PartialEq, Eq, Structural)]
pub enum SpriteError {
    /// The bytes are no image that the decoder knows.
    Undecodable,
    /// There are fewer than four bytes for each pixel.
    TooShort,
}

/// The error type of the `image` crate.
#[verifier::external_type_specification]
#[verifier::external_body]
pub struct ExImageError(image::ImageError);

/// Decodes an image held in memory and hands out its pixels as red,
/// green, blue and alpha bytes with its width and height. The format is
/// told from the first bytes by `image::guess_format`, the image decoded
/// by `image::load_from_memory_with_format`, turned into eight-bit RGBA by
/// `DynamicImage::to_rgba8`, and taken apart by `ImageBuffer::dimensions`
/// and `ImageBuffer::into_raw`. Nothing is claimed of the outcome: the
/// caller checks the pixel data against the dimensions itself. The
/// decoders report bytes that they cannot read as an error; that none of
/// them ever panics instead is taken on trust.
#[verifier::external_body]
fn decode_rgba(encoded: &[u8]) -> (r: Result<(Vec<u8>, u32, u32), image::ImageError>) {
    let format = image::guess_format(encoded)?;
    let img = image::load_from_memory_with_format(encoded, format)?;
    let rgba = img.to_rgba8();
    let (width, height) = rgba.dimensions();
    Ok((rgba.into_raw(), width, height))
}

/// The sprite that pixel data of the given dimensions makes: the first
/// four bytes for each pixel, if there are that many.
pub open spec fn sprite_pixels(data: Seq<u8>, width: u32, height: u32) -> Option<Seq<u8>> {
    if data.len() >= width * height * 4 {
        Some(data.subrange(0, width * height * 4))
    } else {
        None
    }
}

/// Makes a sprite of pixel data and its dimensions. Data beyond the last
/// pixel is dropped; data that ends before it is refused.
pub fn sprite_from_rgba(data: Vec<u8>, width: u32, height: u32) -> (r: Result<
    CursorSprite,
    SpriteError,
>)
    ensures
        match r {
            Ok(sprite) => sprite_pixels(data@, width, height) == Some(sprite.data@) && sprite.width
                == width && sprite.height == height && sprite.wf(),
            Err(e) => sprite_pixels(data@, width, height).is_none() && e == SpriteError::TooShort,
        },
{
    proof {
        lemma_mul_bounded(width as int, 0xffff_ffff, height as int, 0xffff_ffff);
        assert(width * height >= 0) by (nonlinear_arith)
            requires
                width >= 0,
                height >= 0,
        ;
    }
    let need: u128 = (width as u128) * (height as u128) * 4;
    if (data.len() as u128) < need {
        return Err(SpriteError::TooShort);
    }
    let mut data = data;
    data.truncate(need as usize);
    Ok(CursorSprite { data, width, height })
}

/// Decodes an encoded image into a cursor sprite. Whether the bytes
/// decode is for the decoder to say; what it hands back becomes a sprite
/// as `sprite_from_rgba` makes one, so a sprite that comes back holds
/// four bytes for each of its pixels.
pub fn load_cursor_sprite(encoded: &[u8]) -> (r: Result<CursorSprite, SpriteError>)
    ensures
        r.is_ok() ==> r.unwrap().wf(),
{
    match decode_rgba(encoded) {
        Ok(img) => sprite_from_rgba(img.0, img.1, img.2),
        Err(_) => Err(SpriteError::Undecodable),
    }
}

/// Channel `ch` of the texel at column `cx` and row `cy`, both limited
/// to the sprite.
pub open spec fn texel(data: Seq<u8>, w: int, h: int, cx: int, cy: int, ch: int) -> int {
    let x = clamp_int(cx, 0, w - 1);
    let y = clamp_int(cy, 0, h - 1);
    data[(y * w + x) * 4 + ch] as int
}

/// Whether the sprite has a sample at `(u, v)`, in 1/65536 of a texel:
/// from half a texel before the centre of the first texel to half a texel
/// after the centre of the last, both ends included, on both axes. A
/// sprite without texels has no sample.
pub open spec fn sample_in_bounds(w: int, h: int, u: int, v: int) -> bool {
    &&& w >= 1
    &&& h >= 1
    &&& -32768 <= u <= w * 65536 - 32768
    &&& -32768 <= v <= h * 65536 - 32768
}

/// Channel `ch` of the bilinear sample at `(u, v)`: the four texels
/// around the point, weighted by its distance to them, rounded down.
pub open spec fn bilinear_channel(data: Seq<u8>, w: int, h: int, u: int, v: int, ch: int) -> int {
    let fx = u / 65536;
    let fy = v / 65536;
    let wu = u % 65536;
    let wv = v % 65536;
    let top = texel(data, w, h, fx, fy, ch) * (65536 - wu) + texel(data, w, h, fx + 1, fy, ch)
        * wu;
    let bot = texel(data, w, h, fx, fy + 1, ch) * (65536 - wu) + texel(
        data,
        w,
        h,
        fx + 1,
        fy + 1,
        ch,
    ) * wu;
    (top * (65536 - wv) + bot * wv) / 0x1_0000_0000
}

/// The bilinear sample of the sprite at `(u, v)`: red, green, blue and
/// alpha, or nothing outside the sprite.
pub open spec fn bilinear_sample(data: Seq<u8>, w: int, h: int, u: int, v: int) -> Option<
    (u8, u8, u8, u8),
> {
    if sample_in_bounds(w, h, u, v) {
        Some(
            (
                bilinear_channel(data, w, h, u, v, 0) as u8,
                bilinear_channel(data, w, h, u, v, 1) as u8,
                bilinear_channel(data, w, h, u, v, 2) as u8,
                bilinear_channel(data, w, h, u, v, 3) as u8,
            ),
        )
    } else {
        None
    }
}

/// The foreground over the background with the given alpha out of 255,
/// rounded down.
pub open spec fn alpha_over(bg: int, fg: int, alpha: int) -> int {
    (bg * (255 - alpha) + fg * alpha) / 255
}

/// Row of the frame in which byte `i` lies.
pub open spec fn row_of(i: int, stride: int) -> int {
    i / stride
}

/// Column of the pixel to which byte `i` belongs.
pub open spec fn col_of(i: int, stride: int) -> int {
    (i % stride) / 4
}

/// Channel of its pixel that byte `i` holds.
pub open spec fn channel_of(i: int, stride: int) -> int {
    (i % stride) % 4
}

/// Number of rows that can be drawn on: the frame's height, or as many
/// whole rows as the buffer holds if those are fewer.
pub open spec fn drawable_rows(len: int, stride: int, frame_height: int) -> int {
    if stride <= 0 {
        0
    } else if frame_height < len / stride {
        frame_height
    } else {
        len / stride
    }
}

/// Number of columns that can be drawn on: the frame's width, or as many
/// whole pixels as a row holds if those are fewer.
pub open spec fn drawable_cols(stride: int, frame_width: int) -> int {
    if frame_width < stride / 4 {
        frame_width
    } else {
        stride / 4
    }
}

/// The geometry of a frame buffer and the placement of a sprite on it.
pub struct Placement {
    pub stride: int,
    pub rows: int,
    pub cols: int,
    pub w: int,
    pub h: int,
    pub x: int,
    pub y: int,
}

/// Byte `i` of the frame after compositing. A colour byte of a drawable
/// pixel for which the sprite has a sample that is not fully transparent
/// becomes that sample's colour over the byte; every other byte stays.
pub open spec fn composite_byte(old_frame: Seq<u8>, sprite: Seq<u8>, p: Placement, i: int) -> u8 {
    let row = row_of(i, p.stride);
    let col = col_of(i, p.stride);
    let ch = channel_of(i, p.stride);
    let u = col * 65536 - p.x;
    let v = row * 65536 - p.y;
    if p.stride > 0 && row < p.rows && col < p.cols && ch < 3 && sample_in_bounds(p.w, p.h, u, v)
        && bilinear_channel(sprite, p.w, p.h, u, v, 3) > 0 {
        alpha_over(
            old_frame[i] as int,
            bilinear_channel(sprite, p.w, p.h, u, v, ch),
            bilinear_channel(sprite, p.w, p.h, u, v, 3),
        ) as u8
    } else {
        old_frame[i]
    }
}

/// The frame after compositing.
pub open spec fn composited(old_frame: Seq<u8>, sprite: Seq<u8>, p: Placement) -> Seq<u8> {
    Seq::new(old_frame.len(), |i: int| composite_byte(old_frame, sprite, p, i))
}

/// The placement of a sprite of `w` by `h` texels at `(x, y)` on a frame
/// buffer of `len` bytes.
pub open spec fn placement(
    len: int,
    frame_width: int,
    frame_height: int,
    stride: int,
    w: int,
    h: int,
    x: int,
    y: int,
) -> Placement {
    Placement {
        stride,
        rows: drawable_rows(len, stride, frame_height),
        cols: drawable_cols(stride, frame_width),
        w,
        h,
        x,
        y,
    }
}

/// The byte at channel `ch` of the pixel at `(row, col)` lies in that row,
/// column and channel.
pub proof fn lemma_pixel_index(stride: int, row: int, col: int, ch: int)
    requires
        stride > 0,
        row >= 0,
        col >= 0,
        0 <= ch < 4,
        col * 4 + 3 < stride,
    ensures
        row_of(row * stride + col * 4 + ch, stride) == row,
        col_of(row * stride + col * 4 + ch, stride) == col,
        channel_of(row * stride + col * 4 + ch, stride) == ch,
{
    let i = row * stride + col * 4 + ch;
    assert(i == stride * row + (col * 4 + ch)) by (nonlinear_arith)
        requires
            i == row * stride + col * 4 + ch,
    ;
    vstd::arithmetic::div_mod::lemma_fundamental_div_mod_converse(i, stride, row, col * 4 + ch);
    vstd::arithmetic::div_mod::lemma_fundamental_div_mod_converse(col * 4 + ch, 4, col, ch);
}

/// A byte lies at its channel of its column of its row.
pub proof fn lemma_index_pixel(stride: int, i: int)
    requires
        stride > 0,
        i >= 0,
    ensures
        i == row_of(i, stride) * stride + col_of(i, stride) * 4 + channel_of(i, stride),
        0 <= channel_of(i, stride) < 4,
        0 <= col_of(i, stride),
        0 <= row_of(i, stride),
        col_of(i, stride) * 4 + channel_of(i, stride) < stride,
{
    vstd::arithmetic::div_mod::lemma_fundamental_div_mod(i, stride);
    vstd::arithmetic::div_mod::lemma_mod_bound(i, stride);
    vstd::arithmetic::div_mod::lemma_fundamental_div_mod(i % stride, 4);
    vstd::arithmetic::div_mod::lemma_mod_bound(i % stride, 4);
    vstd::arithmetic::div_mod::lemma_div_pos_is_pos(i, stride);
    vstd::arithmetic::div_mod::lemma_div_pos_is_pos(i % stride, 4);
    assert(stride * (i / stride) == (i / stride) * stride) by (nonlinear_arith);
}

/// A bilinear sample of bytes is a byte.
pub proof fn lemma_bilinear_range(data: Seq<u8>, w: int, h: int, u: int, v: int, ch: int)
    ensures
        0 <= bilinear_channel(data, w, h, u, v, ch) <= 255,
{
    let fx = u / 65536;
    let fy = v / 65536;
    let wu = u % 65536;
    let wv = v % 65536;
    let a = texel(data, w, h, fx, fy, ch);
    let b = texel(data, w, h, fx + 1, fy, ch);
    let c = texel(data, w, h, fx, fy + 1, ch);
    let d = texel(data, w, h, fx + 1, fy + 1, ch);
    lemma_weighted_range(a, b, wu);
    lemma_weighted_range(c, d, wu);
    let top = a * (65536 - wu) + b * wu;
    let bot = c * (65536 - wu) + d * wu;
    assert(0 <= top * (65536 - wv) + bot * wv <= 255 * 0x1_0000_0000) by (nonlinear_arith)
        requires
            0 <= top <= 255 * 65536,
            0 <= bot <= 255 * 65536,
            0 <= wv < 65536,
    ;
    let num = top * (65536 - wv) + bot * wv;
    vstd::arithmetic::div_mod::lemma_fundamental_div_mod(num, 0x1_0000_0000);
    vstd::arithmetic::div_mod::lemma_mod_bound(num, 0x1_0000_0000);
}

/// The mean of two bytes with weights that add up to 65536 is at most
/// 255 times 65536.
pub proof fn lemma_weighted_range(a: int, b: int, wu: int)
    requires
        0 <= a <= 255,
        0 <= b <= 255,
        0 <= wu < 65536,
    ensures
        0 <= a * (65536 - wu) + b * wu <= 255 * 65536,
{
    assert(0 <= a * (65536 - wu) + b * wu <= 255 * 65536) by (nonlinear_arith)
        requires
            0 <= a <= 255,
            0 <= b <= 255,
            0 <= wu < 65536,
    ;
}

/// A byte over a byte is a byte.
pub proof fn lemma_alpha_over_range(bg: int, fg: int, alpha: int)
    requires
        0 <= bg <= 255,
        0 <= fg <= 255,
        0 <= alpha <= 255,
    ensures
        0 <= alpha_over(bg, fg, alpha) <= 255,
        alpha == 255 ==> alpha_over(bg, fg, alpha) == fg,
        alpha == 0 ==> alpha_over(bg, fg, alpha) == bg,
{
    assert(0 <= bg * (255 - alpha) + fg * alpha <= 255 * 255) by (nonlinear_arith)
        requires
            0 <= bg <= 255,
            0 <= fg <= 255,
            0 <= alpha <= 255,
    ;
    if alpha == 255 {
        assert(bg * (255 - alpha) + fg * alpha == fg * 255) by (nonlinear_arith)
            requires
                alpha == 255,
        ;
    }
    if alpha == 0 {
        assert(bg * (255 - alpha) + fg * alpha == bg * 255) by (nonlinear_arith)
            requires
                alpha == 0,
        ;
    }
}

/// The foreground byte over the background byte.
fn blend(bg: u8, fg: u8, alpha: u8) -> (out: u8)
    ensures
        out == alpha_over(bg as int, fg as int, alpha as int),
{
    proof {
        lemma_alpha_over_range(bg as int, fg as int, alpha as int);
        assert(0 <= bg * (255 - alpha) + fg * alpha <= 255 * 255) by (nonlinear_arith)
            requires
                0 <= bg <= 255,
                0 <= fg <= 255,
                0 <= alpha <= 255,
        ;
    }
    let num: u32 = (bg as u32) * (255 - alpha as u32) + (fg as u32) * (alpha as u32);
    (num / 255) as u8
}

/// One channel of one texel, with the coordinates limited to the sprite.
fn texel_exec(cursor: &CursorSprite, cx: i64, cy: i64, ch: usize) -> (t: u8)
    requires
        cursor.wf(),
        cursor.width >= 1,
        cursor.height >= 1,
        ch < 4,
    ensures
        t == texel(cursor.data@, cursor.width as int, cursor.height as int, cx as int, cy as int,
            ch as int),
{
    let w: i64 = cursor.width as i64;
    let h: i64 = cursor.height as i64;
    let x: i64 = if cx < 0 {
        0
    } else if cx > w - 1 {
        w - 1
    } else {
        cx
    };
    let y: i64 = if cy < 0 {
        0
    } else if cy > h - 1 {
        h - 1
    } else {
        cy
    };
    let len: usize = cursor.data.len();
    proof {
        assert(0 <= y * w && y * w + x <= w * h - 1) by (nonlinear_arith)
            requires
                0 <= x <= w - 1,
                0 <= y <= h - 1,
        ;
        assert(w * h * 4 == len);
    }
    let at: usize = ((y as usize) * (w as usize) + (x as usize)) * 4 + ch;
    cursor.data[at]
}

/// One channel of a bilinear sample.
fn bilinear_exec(cursor: &CursorSprite, fx: i64, fy: i64, wu: u64, wv: u64, ch: usize) -> (c: u8)
    requires
        cursor.wf(),
        cursor.width >= 1,
        cursor.height >= 1,
        ch < 4,
        -0x1_0000_0000_0000 <= fx <= 0x1_0000_0000_0000,
        -0x1_0000_0000_0000 <= fy <= 0x1_0000_0000_0000,
        wu < 65536,
        wv < 65536,
    ensures
        c as int == bilinear_channel(
            cursor.data@,
            cursor.width as int,
            cursor.height as int,
            fx * 65536 + wu,
            fy * 65536 + wv,
            ch as int,
        ),
{
    let ghost u = fx * 65536 + wu;
    let ghost v = fy * 65536 + wv;
    proof {
        vstd::arithmetic::div_mod::lemma_fundamental_div_mod_converse(
            u,
            65536,
            fx as int,
            wu as int,
        );
        vstd::arithmetic::div_mod::lemma_fundamental_div_mod_converse(
            v,
            65536,
            fy as int,
            wv as int,
        );
        lemma_bilinear_range(
            cursor.data@,
            cursor.width as int,
            cursor.height as int,
            u,
            v,
            ch as int,
        );
    }
    let a: u64 = texel_exec(cursor, fx, fy, ch) as u64;
    let b: u64 = texel_exec(cursor, fx + 1, fy, ch) as u64;
    let c: u64 = texel_exec(cursor, fx, fy + 1, ch) as u64;
    let d: u64 = texel_exec(cursor, fx + 1, fy + 1, ch) as u64;
    proof {
        lemma_weighted_range(a as int, b as int, wu as int);
        lemma_weighted_range(c as int, d as int, wu as int);
        assert(0 <= a * (65536 - wu) && 0 <= b * wu && 0 <= c * (65536 - wu) && 0 <= d * wu)
            by (nonlinear_arith)
            requires
                0 <= a,
                0 <= b,
                0 <= c,
                0 <= d,
                0 <= wu < 65536,
        ;
    }
    let top: u64 = a * (65536 - wu) + b * wu;
    let bot: u64 = c * (65536 - wu) + d * wu;
    proof {
        assert(0 <= top * (65536 - wv) + bot * wv <= 255 * 0x1_0000_0000 && 0 <= top * (65536
            - wv) && 0 <= bot * wv) by (nonlinear_arith)
            requires
                0 <= top <= 255 * 65536,
                0 <= bot <= 255 * 65536,
                0 <= wv < 65536,
        ;
    }
    ((top * (65536 - wv) + bot * wv) / 0x1_0000_0000) as u8
}

/// The sprite's sample at a point given in 1/65536 of a texel.
fn sample_at(cursor: &CursorSprite, u: i128, v: i128) -> (sample: Option<(u8, u8, u8, u8)>)
    requires
        cursor.wf(),
    ensures
        sample == bilinear_sample(
            cursor.data@,
            cursor.width as int,
            cursor.height as int,
            u as int,
            v as int,
        ),
{
    proof {
        lemma_bilinear_range(cursor.data@, cursor.width as int, cursor.height as int, u as int,
            v as int, 0);
        lemma_bilinear_range(cursor.data@, cursor.width as int, cursor.height as int, u as int,
            v as int, 1);
        lemma_bilinear_range(cursor.data@, cursor.width as int, cursor.height as int, u as int,
            v as int, 2);
        lemma_bilinear_range(cursor.data@, cursor.width as int, cursor.height as int, u as int,
            v as int, 3);
    }
    let w: i128 = cursor.width as i128;
    let h: i128 = cursor.height as i128;
    if w < 1 || h < 1 || u < -32768 || v < -32768 || u > w * 65536 - 32768 || v > h * 65536
        - 32768 {
        return None;
    }
    let fx: i128 = div_floor(u, 65536);
    let fy: i128 = div_floor(v, 65536);
    proof {
        vstd::arithmetic::div_mod::lemma_fundamental_div_mod(u as int, 65536);
        vstd::arithmetic::div_mod::lemma_mod_bound(u as int, 65536);
        vstd::arithmetic::div_mod::lemma_fundamental_div_mod(v as int, 65536);
        vstd::arithmetic::div_mod::lemma_mod_bound(v as int, 65536);
    }
    let wu: u64 = (u - fx * 65536) as u64;
    let wv: u64 = (v - fy * 65536) as u64;
    let fx: i64 = fx as i64;
    let fy: i64 = fy as i64;
    Some(
        (
            bilinear_exec(cursor, fx, fy, wu, wv, 0),
            bilinear_exec(cursor, fx, fy, wu, wv, 1),
            bilinear_exec(cursor, fx, fy, wu, wv, 2),
            bilinear_exec(cursor, fx, fy, wu, wv, 3),
        ),
    )
}

/// The bilinear sample of the sprite at `(x, y)`, in 1/65536 of a texel,
/// as red, green, blue and alpha; nothing outside the sprite.
pub fn sample_bilinear_fast(cursor: &CursorSprite, x: i64, y: i64) -> (sample: Option<
    (u8, u8, u8, u8),
>)
    requires
        cursor.wf(),
    ensures
        sample == bilinear_sample(
            cursor.data@,
            cursor.width as int,
            cursor.height as int,
            x as int,
            y as int,
        ),
{
    sample_at(cursor, x as i128, y as i128)
}

/// First column and row of the frame that the sprite can reach, and the
/// first ones that it cannot reach any more: a box around every pixel
/// for which the sprite has a sample.
pub open spec fn reach_box(p: Placement) -> (int, int, int, int) {
    (p.x / 65536, p.x / 65536 + p.w + 1, p.y / 65536, p.y / 65536 + p.h + 1)
}

/// Outside the box that the sprite can reach, no byte changes.
pub proof fn lemma_outside_reach(old_frame: Seq<u8>, sprite: Seq<u8>, p: Placement, i: int)
    requires
        p.stride > 0,
        i >= 0,
        col_of(i, p.stride) < reach_box(p).0 || col_of(i, p.stride) >= reach_box(p).1 || row_of(
            i,
            p.stride,
        ) < reach_box(p).2 || row_of(i, p.stride) >= reach_box(p).3,
    ensures
        composite_byte(old_frame, sprite, p, i) == old_frame[i],
{
    vstd::arithmetic::div_mod::lemma_fundamental_div_mod(p.x, 65536);
    vstd::arithmetic::div_mod::lemma_mod_bound(p.x, 65536);
    vstd::arithmetic::div_mod::lemma_fundamental_div_mod(p.y, 65536);
    vstd::arithmetic::div_mod::lemma_mod_bound(p.y, 65536);
}

/// Whether compositing has dealt with byte `i` when it stands before
/// column `dx` of row `dy` of the box of columns `x0..x1` that starts at
/// row `y0`.
pub open spec fn dealt_with(i: int, stride: int, x0: int, x1: int, y0: int, dy: int, dx: int) -> bool {
    let row = row_of(i, stride);
    let col = col_of(i, stride);
    x0 <= col < x1 && (y0 <= row < dy || (row == dy && col < dx))
}

/// A coordinate of the box, limited to the drawable part of the frame.
fn limit_to(v: i128, lo: usize, hi: usize) -> (r: usize)
    requires
        lo <= hi,
    ensures
        r == clamp_int(v as int, lo as int, hi as int),
{
    if v < lo as i128 {
        lo
    } else if v > hi as i128 {
        hi
    } else {
        v as usize
    }
}

/// Draws the sprite onto the frame with its top left corner at `(x, y)`,
/// given in 1/65536 of a pixel. `frame` holds `frame_height` rows of
/// `stride` bytes, each of which starts with `frame_width` pixels of four
/// bytes. For every pixel on which the sprite has a sample, the sample's
/// colour is laid over the pixel's red, green and blue bytes with the
/// sample's alpha. The fourth byte of a pixel stays, and so does every
/// byte that lies outside the frame's rows and columns.
pub fn composite_cursor_subpixel(
    frame: &mut Vec<u8>,
    frame_width: u32,
    frame_height: u32,
    stride: usize,
    cursor: &CursorSprite,
    x: i64,
    y: i64,
)
    requires
        cursor.wf(),
    ensures
        final(frame)@ == composited(
            old(frame)@,
            cursor.data@,
            placement(
                old(frame)@.len() as int,
                frame_width as int,
                frame_height as int,
                stride as int,
                cursor.width as int,
                cursor.height as int,
                x as int,
                y as int,
            ),
        ),
{
    let ghost old_frame = frame@;
    let ghost sprite = cursor.data@;
    let ghost p = placement(
        frame@.len() as int,
        frame_width as int,
        frame_height as int,
        stride as int,
        cursor.width as int,
        cursor.height as int,
        x as int,
        y as int,
    );
    if stride == 0 {
        assert(frame@ =~= composited(old_frame, sprite, p));
        return;
    }
    let len: usize = frame.len();
    let rows_fit: usize = len / stride;
    let rows: usize = if (frame_height as usize) < rows_fit {
        frame_height as usize
    } else {
        rows_fit
    };
    let cols: usize = if (frame_width as usize) < stride / 4 {
        frame_width as usize
    } else {
        stride / 4
    };
    proof {
        vstd::arithmetic::div_mod::lemma_fundamental_div_mod(len as int, stride as int);
        vstd::arithmetic::div_mod::lemma_mod_bound(len as int, stride as int);
        assert(rows * stride <= len) by (nonlinear_arith)
            requires
                0 <= rows <= len as int / stride as int,
                len == stride * (len as int / stride as int) + len as int % stride as int,
                0 <= len as int % stride as int,
                stride > 0,
        ;
    }
    let start_x: i128 = div_floor(x as i128, 65536);
    let start_y: i128 = div_floor(y as i128, 65536);
    proof {
        vstd::arithmetic::div_mod::lemma_fundamental_div_mod(x as int, 65536);
        vstd::arithmetic::div_mod::lemma_mod_bound(x as int, 65536);
        vstd::arithmetic::div_mod::lemma_fundamental_div_mod(y as int, 65536);
        vstd::arithmetic::div_mod::lemma_mod_bound(y as int, 65536);
    }
    let end_x: i128 = start_x + cursor.width as i128 + 1;
    let end_y: i128 = start_y + cursor.height as i128 + 1;
    let x0: usize = limit_to(start_x, 0, cols);
    let x1: usize = limit_to(end_x, x0, cols);
    let y0: usize = limit_to(start_y, 0, rows);
    let y1: usize = limit_to(end_y, y0, rows);
    let mut dy: usize = y0;
    while dy < y1
        invariant
            cursor.wf(),
            sprite == cursor.data@,
            p == placement(
                len as int,
                frame_width as int,
                frame_height as int,
                stride as int,
                cursor.width as int,
                cursor.height as int,
                x as int,
                y as int,
            ),
            stride > 0,
            rows == p.rows,
            cols == p.cols,
            rows * stride <= len,
            cols * 4 <= stride,
            x0 <= x1 <= cols,
            y0 <= dy <= y1 <= rows,
            frame@.len() == len,
            old_frame.len() == len,
            forall|i: int|
                0 <= i < len ==> #[trigger] frame@[i] == (if dealt_with(
                    i,
                    stride as int,
                    x0 as int,
                    x1 as int,
                    y0 as int,
                    dy as int,
                    x0 as int,
                ) {
                    composite_byte(old_frame, sprite, p, i)
                } else {
                    old_frame[i]
                }),
        decreases y1 - dy,
    {
        let mut dx: usize = x0;
        while dx < x1
            invariant
                cursor.wf(),
                sprite == cursor.data@,
                p == placement(
                    len as int,
                    frame_width as int,
                    frame_height as int,
                    stride as int,
                    cursor.width as int,
                    cursor.height as int,
                    x as int,
                    y as int,
                ),
                stride > 0,
                rows == p.rows,
                cols == p.cols,
                rows * stride <= len,
                cols * 4 <= stride,
                x0 <= dx <= x1 <= cols,
                y0 <= dy < y1 <= rows,
                frame@.len() == len,
                old_frame.len() == len,
                forall|i: int|
                    0 <= i < len ==> #[trigger] frame@[i] == (if dealt_with(
                        i,
                        stride as int,
                        x0 as int,
                        x1 as int,
                        y0 as int,
                        dy as int,
                        dx as int,
                    ) {
                        composite_byte(old_frame, sprite, p, i)
                    } else {
                        old_frame[i]
                    }),
            decreases x1 - dx,
        {
            let u: i128 = (dx as i128) * 65536 - x as i128;
            let v: i128 = (dy as i128) * 65536 - y as i128;
            proof {
                assert((dy + 1) * stride <= rows * stride) by (nonlinear_arith)
                    requires
                        dy + 1 <= rows,
                        stride > 0,
                ;
                assert(dy * stride >= 0 && (dy + 1) * stride == dy * stride + stride)
                    by (nonlinear_arith)
                    requires
                        dy >= 0,
                        stride > 0,
                ;
            }
            let idx: usize = dy * stride + dx * 4;
            proof {
                lemma_pixel_index(stride as int, dy as int, dx as int, 0);
                lemma_pixel_index(stride as int, dy as int, dx as int, 1);
                lemma_pixel_index(stride as int, dy as int, dx as int, 2);
                lemma_pixel_index(stride as int, dy as int, dx as int, 3);
                assert(!dealt_with(
                    idx as int,
                    stride as int,
                    x0 as int,
                    x1 as int,
                    y0 as int,
                    dy as int,
                    dx as int,
                ));
                assert(!dealt_with(
                    idx + 1,
                    stride as int,
                    x0 as int,
                    x1 as int,
                    y0 as int,
                    dy as int,
                    dx as int,
                ));
                assert(!dealt_with(
                    idx + 2,
                    stride as int,
                    x0 as int,
                    x1 as int,
                    y0 as int,
                    dy as int,
                    dx as int,
                ));
                assert(frame@[idx as int] == old_frame[idx as int]);
                assert(frame@[idx + 1] == old_frame[idx + 1]);
                assert(frame@[idx + 2] == old_frame[idx + 2]);
                lemma_bilinear_range(sprite, p.w, p.h, u as int, v as int, 0);
                lemma_bilinear_range(sprite, p.w, p.h, u as int, v as int, 1);
                lemma_bilinear_range(sprite, p.w, p.h, u as int, v as int, 2);
                lemma_bilinear_range(sprite, p.w, p.h, u as int, v as int, 3);
            }
            let ghost before = frame@;
            match sample_at(cursor, u, v) {
                Some((r, g, b, a)) => {
                    if a > 0 {
                        let red: u8 = blend(frame[idx], r, a);
                        let green: u8 = blend(frame[idx + 1], g, a);
                        let blue: u8 = blend(frame[idx + 2], b, a);
                        frame.set(idx, red);
                        frame.set(idx + 1, green);
                        frame.set(idx + 2, blue);
                    }
                },
                None => {},
            }
            proof {
                assert forall|i: int| 0 <= i < len implies #[trigger] frame@[i] == (if dealt_with(
                    i,
                    stride as int,
                    x0 as int,
                    x1 as int,
                    y0 as int,
                    dy as int,
                    dx + 1,
                ) {
                    composite_byte(old_frame, sprite, p, i)
                } else {
                    old_frame[i]
                }) by {
                    lemma_index_pixel(stride as int, i);
                    if row_of(i, stride as int) == dy && col_of(i, stride as int) == dx {
                        assert(idx <= i < idx + 4);
                        assert(before[i] == old_frame[i]);
                    } else {
                        assert(i != idx && i != idx + 1 && i != idx + 2);
                        assert(frame@[i] == before[i]);
                    }
                }
            }
            dx += 1;
        }
        dy += 1;
    }
    proof {
        assert forall|i: int| 0 <= i < len implies #[trigger] frame@[i] == composite_byte(
            old_frame,
            sprite,
            p,
            i,
        ) by {
            lemma_index_pixel(stride as int, i);
            if !dealt_with(i, stride as int, x0 as int, x1 as int, y0 as int, y1 as int, x0 as int) {
                if row_of(i, stride as int) < rows && col_of(i, stride as int) < cols {
                    lemma_outside_reach(old_frame, sprite, p, i);
                }
            }
        }
        assert(frame@ =~= composited(old_frame, sprite, p));
    }
}

/// Column of the pixel to which byte `i` of a frame of three bytes per
/// pixel belongs.
pub open spec fn rgb_col_of(i: int, stride: int) -> int {
    (i % stride) / 3
}

/// Channel of its pixel that byte `i` of a frame of three bytes per pixel
/// holds.
pub open spec fn rgb_channel_of(i: int, stride: int) -> int {
    (i % stride) % 3
}

/// Number of columns of three bytes that can be drawn on.
pub open spec fn rgb_drawable_cols(stride: int, frame_width: int) -> int {
    if frame_width < stride / 3 {
        frame_width
    } else {
        stride / 3
    }
}

/// Byte `i` of a frame of red, green and blue bytes after the sprite has
/// been laid on it with its top left texel on the pixel `(p.x, p.y)`.
/// The byte takes up the texel that lies on its pixel, with the texel's
/// alpha, if that alpha is not zero and the three bytes of the pixel lie
/// in the buffer.
pub open spec fn overlay_byte(old_frame: Seq<u8>, sprite: Seq<u8>, p: Placement, i: int) -> u8 {
    let row = row_of(i, p.stride);
    let col = rgb_col_of(i, p.stride);
    let ch = rgb_channel_of(i, p.stride);
    let sx = col - p.x;
    let sy = row - p.y;
    let at = (sy * p.w + sx) * 4;
    if p.stride > 0 && row < p.rows && col < p.cols && row * p.stride + col * 3 + 2
        < old_frame.len() && 0 <= sx < p.w && 0 <= sy < p.h && sprite[at + 3] > 0 {
        alpha_over(old_frame[i] as int, sprite[at + ch] as int, sprite[at + 3] as int) as u8
    } else {
        old_frame[i]
    }
}

/// The frame of red, green and blue bytes after the overlay.
pub open spec fn overlaid(old_frame: Seq<u8>, sprite: Seq<u8>, p: Placement) -> Seq<u8> {
    Seq::new(old_frame.len(), |i: int| overlay_byte(old_frame, sprite, p, i))
}

/// The placement of a sprite on whole pixels of a frame of three bytes
/// per pixel.
pub open spec fn rgb_placement(
    frame_width: int,
    frame_height: int,
    stride: int,
    w: int,
    h: int,
    x: int,
    y: int,
) -> Placement {
    Placement {
        stride,
        rows: frame_height,
        cols: rgb_drawable_cols(stride, frame_width),
        w,
        h,
        x,
        y,
    }
}

/// The byte at channel `ch` of the pixel at `(row, col)` of a frame of
/// three bytes per pixel lies in that row, column and channel.
pub proof fn lemma_rgb_pixel_index(stride: int, row: int, col: int, ch: int)
    requires
        stride > 0,
        row >= 0,
        col >= 0,
        0 <= ch < 3,
        col * 3 + 2 < stride,
    ensures
        row_of(row * stride + col * 3 + ch, stride) == row,
        rgb_col_of(row * stride + col * 3 + ch, stride) == col,
        rgb_channel_of(row * stride + col * 3 + ch, stride) == ch,
{
    let i = row * stride + col * 3 + ch;
    assert(i == stride * row + (col * 3 + ch)) by (nonlinear_arith)
        requires
            i == row * stride + col * 3 + ch,
    ;
    vstd::arithmetic::div_mod::lemma_fundamental_div_mod_converse(i, stride, row, col * 3 + ch);
    vstd::arithmetic::div_mod::lemma_fundamental_div_mod_converse(col * 3 + ch, 3, col, ch);
}

/// A byte of a frame of three bytes per pixel lies at its channel of its
/// column of its row.
pub proof fn lemma_rgb_index_pixel(stride: int, i: int)
    requires
        stride > 0,
        i >= 0,
    ensures
        i == row_of(i, stride) * stride + rgb_col_of(i, stride) * 3 + rgb_channel_of(i, stride),
        0 <= rgb_channel_of(i, stride) < 3,
        0 <= rgb_col_of(i, stride),
        0 <= row_of(i, stride),
        rgb_col_of(i, stride) * 3 + rgb_channel_of(i, stride) < stride,
{
    vstd::arithmetic::div_mod::lemma_fundamental_div_mod(i, stride);
    vstd::arithmetic::div_mod::lemma_mod_bound(i, stride);
    vstd::arithmetic::div_mod::lemma_fundamental_div_mod(i % stride, 3);
    vstd::arithmetic::div_mod::lemma_mod_bound(i % stride, 3);
    vstd::arithmetic::div_mod::lemma_div_pos_is_pos(i, stride);
    vstd::arithmetic::div_mod::lemma_div_pos_is_pos(i % stride, 3);
    assert(stride * (i / stride) == (i / stride) * stride) by (nonlinear_arith);
}

/// Whether the overlay has dealt with byte `i` when it stands before
/// column `dx` of row `dy` of the box of columns `x0..x1` that starts at
/// row `y0`.
pub open spec fn rgb_dealt_with(
    i: int,
    stride: int,
    x0: int,
    x1: int,
    y0: int,
    dy: int,
    dx: int,
) -> bool {
    let row = row_of(i, stride);
    let col = rgb_col_of(i, stride);
    x0 <= col < x1 && (y0 <= row < dy || (row == dy && col < dx))
}

/// Lays the sprite on a frame of red, green and blue bytes, with its top
/// left texel on the pixel `(x_pos, y_pos)`. `frame` holds `frame_height`
/// rows of `stride` bytes, each of which starts with `frame_width` pixels
/// of three bytes. Every pixel of the frame under a texel whose alpha is
/// not zero takes up the texel's colour with that alpha. Nothing is
/// written outside the frame or the buffer.
pub fn overlay_image_on_rgb_frame(
    frame: &mut Vec<u8>,
    frame_width: u32,
    frame_height: u32,
    stride: usize,
    overlay: &CursorSprite,
    x_pos: i32,
    y_pos: i32,
)
    requires
        overlay.wf(),
    ensures
        final(frame)@ == overlaid(
            old(frame)@,
            overlay.data@,
            rgb_placement(
                frame_width as int,
                frame_height as int,
                stride as int,
                overlay.width as int,
                overlay.height as int,
                x_pos as int,
                y_pos as int,
            ),
        ),
{
    let ghost old_frame = frame@;
    let ghost sprite = overlay.data@;
    let ghost p = rgb_placement(
        frame_width as int,
        frame_height as int,
        stride as int,
        overlay.width as int,
        overlay.height as int,
        x_pos as int,
        y_pos as int,
    );
    if stride == 0 {
        assert(frame@ =~= overlaid(old_frame, sprite, p));
        return;
    }
    let len: usize = frame.len();
    let sprite_len: usize = overlay.data.len();
    let rows: usize = frame_height as usize;
    let cols: usize = if (frame_width as usize) < stride / 3 {
        frame_width as usize
    } else {
        stride / 3
    };
    let w: i128 = overlay.width as i128;
    let h: i128 = overlay.height as i128;
    let x0: usize = limit_to(x_pos as i128, 0, cols);
    let x1: usize = limit_to(x_pos as i128 + w, x0, cols);
    let y0: usize = limit_to(y_pos as i128, 0, rows);
    let y1: usize = limit_to(y_pos as i128 + h, y0, rows);
    let mut dy: usize = y0;
    while dy < y1
        invariant
            overlay.wf(),
            sprite == overlay.data@,
            sprite_len == sprite.len(),
            p == rgb_placement(
                frame_width as int,
                frame_height as int,
                stride as int,
                overlay.width as int,
                overlay.height as int,
                x_pos as int,
                y_pos as int,
            ),
            stride > 0,
            rows == p.rows,
            cols == p.cols,
            w == p.w,
            h == p.h,
            cols * 3 <= stride,
            x0 <= x1 <= cols,
            y0 <= dy <= y1 <= rows,
            x0 < x1 ==> x_pos <= x0 && x1 <= x_pos + w,
            y0 < y1 ==> y_pos <= y0 && y1 <= y_pos + h,
            frame@.len() == len,
            old_frame.len() == len,
            forall|i: int|
                0 <= i < len ==> #[trigger] frame@[i] == (if rgb_dealt_with(
                    i,
                    stride as int,
                    x0 as int,
                    x1 as int,
                    y0 as int,
                    dy as int,
                    x0 as int,
                ) {
                    overlay_byte(old_frame, sprite, p, i)
                } else {
                    old_frame[i]
                }),
        decreases y1 - dy,
    {
        let mut dx: usize = x0;
        while dx < x1
            invariant
                overlay.wf(),
                sprite == overlay.data@,
                sprite_len == sprite.len(),
                p == rgb_placement(
                    frame_width as int,
                    frame_height as int,
                    stride as int,
                    overlay.width as int,
                    overlay.height as int,
                    x_pos as int,
                    y_pos as int,
                ),
                stride > 0,
                rows == p.rows,
                cols == p.cols,
                w == p.w,
                h == p.h,
                cols * 3 <= stride,
                x0 <= dx <= x1 <= cols,
                y0 <= dy < y1 <= rows,
                x0 < x1 ==> x_pos <= x0 && x1 <= x_pos + w,
                y_pos <= y0 && y1 <= y_pos + h,
                frame@.len() == len,
                old_frame.len() == len,
                forall|i: int|
                    0 <= i < len ==> #[trigger] frame@[i] == (if rgb_dealt_with(
                        i,
                        stride as int,
                        x0 as int,
                        x1 as int,
                        y0 as int,
                        dy as int,
                        dx as int,
                    ) {
                        overlay_byte(old_frame, sprite, p, i)
                    } else {
                        old_frame[i]
                    }),
            decreases x1 - dx,
        {
            proof {
                lemma_mul_bounded(
                    dy as int,
                    0xffff_ffff,
                    stride as int,
                    0xffff_ffff_ffff_ffff,
                );
                assert(dy * stride >= 0) by (nonlinear_arith)
                    requires
                        dy >= 0,
                        stride > 0,
                ;
            }
            let first: u128 = (dy as u128) * (stride as u128) + (dx as u128) * 3;
            let ghost before = frame@;
            proof {
                lemma_rgb_pixel_index(stride as int, dy as int, dx as int, 0);
                lemma_rgb_pixel_index(stride as int, dy as int, dx as int, 1);
                lemma_rgb_pixel_index(stride as int, dy as int, dx as int, 2);
            }
            if first + 2 < len as u128 {
                let idx: usize = first as usize;
                let sx: i128 = dx as i128 - x_pos as i128;
                let sy: i128 = dy as i128 - y_pos as i128;
                proof {
                    assert(0 <= sy * w + sx && sy * w + sx <= w * h - 1) by (nonlinear_arith)
                        requires
                            0 <= sx <= w - 1,
                            0 <= sy <= h - 1,
                    ;
                    assert(w * h * 4 == sprite_len);
                    assert(!rgb_dealt_with(
                        idx as int,
                        stride as int,
                        x0 as int,
                        x1 as int,
                        y0 as int,
                        dy as int,
                        dx as int,
                    ));
                    assert(!rgb_dealt_with(
                        idx + 1,
                        stride as int,
                        x0 as int,
                        x1 as int,
                        y0 as int,
                        dy as int,
                        dx as int,
                    ));
                    assert(!rgb_dealt_with(
                        idx + 2,
                        stride as int,
                        x0 as int,
                        x1 as int,
                        y0 as int,
                        dy as int,
                        dx as int,
                    ));
                    assert(frame@[idx as int] == old_frame[idx as int]);
                    assert(frame@[idx + 1] == old_frame[idx + 1]);
                    assert(frame@[idx + 2] == old_frame[idx + 2]);
                }
                let at: usize = ((sy * w + sx) * 4) as usize;
                let a: u8 = overlay.data[at + 3];
                if a > 0 {
                    let red: u8 = blend(frame[idx], overlay.data[at], a);
                    let green: u8 = blend(frame[idx + 1], overlay.data[at + 1], a);
                    let blue: u8 = blend(frame[idx + 2], overlay.data[at + 2], a);
                    frame.set(idx, red);
                    frame.set(idx + 1, green);
                    frame.set(idx + 2, blue);
                }
            }
            proof {
                assert forall|i: int| 0 <= i < len implies #[trigger] frame@[i]
                    == (if rgb_dealt_with(
                    i,
                    stride as int,
                    x0 as int,
                    x1 as int,
                    y0 as int,
                    dy as int,
                    dx + 1,
                ) {
                    overlay_byte(old_frame, sprite, p, i)
                } else {
                    old_frame[i]
                }) by {
                    lemma_rgb_index_pixel(stride as int, i);
                    if row_of(i, stride as int) == dy && rgb_col_of(i, stride as int) == dx {
                        assert(first <= i < first + 3);
                        assert(before[i] == old_frame[i]);
                    } else {
                        assert(i != first && i != first + 1 && i != first + 2);
                        assert(frame@[i] == before[i]);
                    }
                }
            }
            dx += 1;
        }
        dy += 1;
    }
    proof {
        assert forall|i: int| 0 <= i < len implies #[trigger] frame@[i] == overlay_byte(
            old_frame,
            sprite,
            p,
            i,
        ) by {
            lemma_rgb_index_pixel(stride as int, i);
        }
        assert(frame@ =~= overlaid(old_frame, sprite, p));
    }
}

} // verus!
