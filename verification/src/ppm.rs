//! The binary pixel-map encoding of a frame: a short text header, then three
//! bytes for each pixel, row by row.
use crate::frame::deterministic;
use crate::frame::grid_cell;
use crate::frame::lemma_cell_in_frame;
use crate::frame::lemma_map_reproducible;
use crate::frame::lemma_render_reproducible;
use crate::frame::single_valued;
use crate::frame::Frame;
use vstd::prelude::*;

verus! {

/// The channel levels of one pixel as integers, 255 standing for full
/// intensity. A level may lie outside `0..=255`: encoding clamps it.
#[derive(Clone, Copy, Debug)]
pub struct Levels {
    pub red: i32,
    pub green: i32,
    pub blue: i32,
}

/// The byte for a channel level: the level itself, clamped to `0..=255`.
pub open spec fn clamp_level(level: int) -> u8 {
    if level < 0 {
        0u8
    } else if level > 255 {
        255u8
    } else {
        level as u8
    }
}

/// The decimal digits of `n` in ASCII, most significant first, with no sign
/// and no padding.
pub open spec fn decimal(n: nat) -> Seq<u8>
    decreases n,
{
    if n < 10 {
        seq![(48 + n) as u8]
    } else {
        decimal(n / 10).push((48 + n % 10) as u8)
    }
}

/// The header of a `width` by `height` image with 255 as its highest level:
/// the two bytes that mark a binary pixel map (`P`, then `6`), a line feed,
/// the width, a space, the height, a line feed, `255`, a line feed.
pub open spec fn header_bytes(width: nat, height: nat) -> Seq<u8> {
    seq![0x50u8, 0x36u8, 0x0au8] + decimal(width) + seq![0x20u8] + decimal(height)
        + seq![0x0au8, 0x32u8, 0x35u8, 0x35u8, 0x0au8]
}

/// One channel of a pixel: 0 for red, 1 for green, anything else for blue.
pub open spec fn channel(levels: Levels, c: int) -> int {
    if c == 0 {
        levels.red as int
    } else if c == 1 {
        levels.green as int
    } else {
        levels.blue as int
    }
}

/// The bytes of the pixels: byte `3 * k + c` is channel `c` of pixel `k`,
/// clamped.
pub open spec fn pixel_bytes(pixels: Seq<Levels>) -> Seq<u8> {
    Seq::new(3 * pixels.len(), |b: int| clamp_level(channel(pixels[b / 3], b % 3)))
}

/// The whole encoded image: the header, then the pixels.
pub open spec fn ppm_bytes(width: nat, height: nat, pixels: Seq<Levels>) -> Seq<u8> {
    header_bytes(width, height) + pixel_bytes(pixels)
}

/// Clamps a channel level to a byte.
pub fn channel_byte(level: i32) -> (byte: u8)
    ensures
        byte == clamp_level(level as int),
{
    if level < 0 {
        0
    } else if level > 255 {
        255
    } else {
        level as u8
    }
}

/// Appends the decimal digits of `n` to `out`.
pub fn push_decimal(out: &mut Vec<u8>, n: usize)
    ensures
        final(out)@ == old(out)@ + decimal(n as nat),
    decreases n,
{
    if n >= 10 {
        push_decimal(out, n / 10);
    }
    out.push(48u8 + (n % 10) as u8);
}

/// The header of a `width` by `height` image.
pub fn header(width: usize, height: usize) -> (bytes: Vec<u8>)
    ensures
        bytes@ == header_bytes(width as nat, height as nat),
{
    let mut bytes: Vec<u8> = Vec::new();
    bytes.push(0x50);
    bytes.push(0x36);
    bytes.push(0x0a);
    push_decimal(&mut bytes, width);
    bytes.push(0x20);
    push_decimal(&mut bytes, height);
    bytes.push(0x0a);
    bytes.push(0x32);
    bytes.push(0x35);
    bytes.push(0x35);
    bytes.push(0x0a);
    bytes
}

/// Encodes a frame of channel levels: the header, then red, green and blue
/// of each pixel, top row first and left pixel first, each clamped to a byte.
pub fn encode(frame: &Frame<Levels>) -> (bytes: Vec<u8>)
    requires
        frame.wf(),
    ensures
        bytes@ == ppm_bytes(frame.spec_width() as nat, frame.spec_height() as nat, frame@),
{
    let mut bytes: Vec<u8> = header(frame.width(), frame.height());
    let cells: &Vec<Levels> = frame.cells();
    let n: usize = cells.len();
    let ghost head: Seq<u8> = bytes@;
    let mut k: usize = 0;
    while k < n
        invariant
            k <= n,
            n == cells@.len(),
            bytes@ == head + pixel_bytes(cells@.take(k as int)),
        decreases n - k,
    {
        let px: Levels = cells[k];
        bytes.push(channel_byte(px.red));
        bytes.push(channel_byte(px.green));
        bytes.push(channel_byte(px.blue));
        proof {
            let before = cells@.take(k as int);
            let after = cells@.take(k + 1);
            assert(after == before.push(px));
            lemma_pixel_bytes_push(before, px);
        }
        k = k + 1;
    }
    assert(cells@.take(n as int) == cells@);
    bytes
}

/// One more pixel adds its three clamped channels to the bytes.
pub proof fn lemma_pixel_bytes_push(pixels: Seq<Levels>, px: Levels)
    ensures
        pixel_bytes(pixels.push(px)) == pixel_bytes(pixels) + seq![
            clamp_level(px.red as int),
            clamp_level(px.green as int),
            clamp_level(px.blue as int),
        ],
{
    let longer = pixels.push(px);
    let tail = seq![
        clamp_level(px.red as int),
        clamp_level(px.green as int),
        clamp_level(px.blue as int),
    ];
    let joined = pixel_bytes(pixels) + tail;
    assert(pixel_bytes(longer).len() == joined.len());
    assert forall|b: int| 0 <= b < joined.len() implies pixel_bytes(longer)[b] == joined[b] by {
        if b < 3 * pixels.len() {
            assert(longer[b / 3] == pixels[b / 3]);
        } else {
            assert(b / 3 == pixels.len());
            assert(longer[b / 3] == px);
            assert(joined[b] == tail[b - 3 * pixels.len()]);
        }
    }
    assert(pixel_bytes(longer) =~= joined);
}

/// A number has one digit below 10, two below 100, three below 1000.
pub proof fn lemma_decimal_len(n: nat)
    ensures
        decimal(n).len() >= 1,
        n < 10 ==> decimal(n).len() == 1,
        10 <= n < 100 ==> decimal(n).len() == 2,
        100 <= n < 1000 ==> decimal(n).len() == 3,
    decreases n,
{
    if n >= 10 {
        lemma_decimal_len(n / 10);
    }
}

/// Every byte of a number's digits is an ASCII digit.
pub proof fn lemma_decimal_digits(n: nat, k: int)
    requires
        0 <= k < decimal(n).len(),
    ensures
        48 <= decimal(n)[k] <= 57,
    decreases n,
{
    if n >= 10 && k < decimal(n / 10).len() {
        lemma_decimal_digits(n / 10, k);
    }
}

/// The length of an encoded image: nine bytes of header besides the digits
/// of width and height, then three bytes for each pixel.
pub proof fn lemma_encoded_len(width: nat, height: nat, pixels: Seq<Levels>)
    ensures
        header_bytes(width, height).len() == 9 + decimal(width).len() + decimal(height).len(),
        ppm_bytes(width, height, pixels).len() == header_bytes(width, height).len() + 3
            * pixels.len(),
{
}

/// An image whose width and height both have three digits takes fifteen
/// bytes of header and three bytes for each of its pixels.
pub proof fn lemma_three_digit_len(width: nat, height: nat, pixels: Seq<Levels>)
    requires
        100 <= width < 1000,
        100 <= height < 1000,
        pixels.len() == width * height,
    ensures
        ppm_bytes(width, height, pixels).len() == 15 + width * height * 3,
{
    lemma_decimal_len(width);
    lemma_decimal_len(height);
    lemma_encoded_len(width, height, pixels);
}

/// Where a pixel's bytes lie: channel `c` of the pixel in column `i` of row
/// `j` is byte `3 * (j * width + i) + c` after the header, so rows follow
/// one another from the top and pixels from the left.
pub proof fn lemma_pixel_offset(
    width: usize,
    height: usize,
    pixels: Seq<Levels>,
    i: usize,
    j: usize,
    c: int,
)
    requires
        pixels.len() == width * height,
        i < width,
        j < height,
        0 <= c < 3,
    ensures
        header_bytes(width as nat, height as nat).len() + 3 * (j * width + i) + c < ppm_bytes(
            width as nat,
            height as nat,
            pixels,
        ).len(),
        ppm_bytes(width as nat, height as nat, pixels)[header_bytes(
            width as nat,
            height as nat,
        ).len() + 3 * (j * width + i) + c] == clamp_level(
            channel(grid_cell(pixels, width, i, j), c),
        ),
{
    lemma_cell_in_frame(i as int, j as int, width as int, height as int);
    let k: int = j * width + i;
    let b: int = 3 * k + c;
    assert(b / 3 == k && b % 3 == c);
    assert(pixel_bytes(pixels)[b] == clamp_level(channel(pixels[k], c)));
}

/// An image is reproducible: two renders of one size by the same
/// deterministic shader, turned into levels by the same single-valued
/// conversion, encode to the same bytes.
pub proof fn lemma_image_reproducible<T, F: Fn(usize, usize) -> T, G: Fn(&T) -> Levels>(
    a: Frame<T>,
    b: Frame<T>,
    shade: F,
    convert: G,
    levels_a: Frame<Levels>,
    levels_b: Frame<Levels>,
)
    requires
        a.wf(),
        b.wf(),
        a.spec_width() == b.spec_width(),
        a.spec_height() == b.spec_height(),
        a.shaded_by(shade),
        b.shaded_by(shade),
        deterministic(shade),
        levels_a.mapped_from(a, convert),
        levels_b.mapped_from(b, convert),
        single_valued(convert),
    ensures
        ppm_bytes(levels_a.spec_width() as nat, levels_a.spec_height() as nat, levels_a@)
            == ppm_bytes(levels_b.spec_width() as nat, levels_b.spec_height() as nat, levels_b@),
{
    lemma_render_reproducible(a, b, shade);
    lemma_map_reproducible(a, b, convert, levels_a, levels_b);
}

} // verus!
