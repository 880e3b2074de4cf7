//! The encoder: from an image to the bytes of a text file.

use vstd::prelude::*;
use vstd::slice::slice_subrange;
use vstd::utf8::encode_utf8;
use crate::decode::{decode_text_spec, DecodeError};
use crate::image::{Image, ImageView};
use crate::pixel::Pixel;
use crate::round_trip::{lemma_decode_encode, no_newline_char};
use crate::text::{decimal, push_decimal, NEWLINE, SPACE};

verus! {

/// One pixel in text: its three samples in decimal, a space between them.
pub open spec fn pixel_text(p: Pixel) -> Seq<u8> {
    decimal(p.r as nat) + seq![SPACE] + decimal(p.g as nat) + seq![SPACE] + decimal(p.b as nat)
}

/// One row in text: its pixels from the left, a space between them.
pub open spec fn row_text(row: Seq<Pixel>) -> Seq<u8>
    decreases row.len(),
{
    if row.len() == 0 {
        Seq::empty()
    } else if row.len() == 1 {
        pixel_text(row[0])
    } else {
        row_text(row.drop_last()) + seq![SPACE] + pixel_text(row.last())
    }
}

/// The `index`-th row of a raster whose rows hold `width` pixels.
pub open spec fn row_of(pixels: Seq<Pixel>, index: nat, width: nat) -> Seq<Pixel> {
    pixels.subrange((index * width) as int, (index * width + width) as int)
}

/// The first `rows` rows in text, from the top, a newline between them and
/// none behind the last.
pub open spec fn raster_text(pixels: Seq<Pixel>, rows: nat, width: nat) -> Seq<u8>
    decreases rows,
{
    if rows == 0 {
        Seq::empty()
    } else if rows == 1 {
        row_text(row_of(pixels, 0, width))
    } else {
        raster_text(pixels, (rows - 1) as nat, width) + seq![NEWLINE] + row_text(
            row_of(pixels, (rows - 1) as nat, width),
        )
    }
}

/// The three header lines: the format tag, the height and the width with a
/// space between them, and the largest sample value, each ended by a newline.
pub open spec fn header_text(image: ImageView) -> Seq<u8> {
    encode_utf8(image.magic) + seq![NEWLINE] + decimal(image.height) + seq![SPACE] + decimal(
        image.width,
    ) + seq![NEWLINE] + decimal(image.max_color) + seq![NEWLINE]
}

/// The text file of an image: the header, then the raster.
pub open spec fn encode_text_spec(image: ImageView) -> Seq<u8> {
    header_text(image) + raster_text(image.pixels, image.height, image.width)
}

/// Appends one pixel in text.
pub fn push_pixel(out: &mut Vec<u8>, p: Pixel)
    ensures
        final(out)@ == old(out)@ + pixel_text(p),
{
    push_decimal(out, p.red() as usize);
    out.push(SPACE);
    push_decimal(out, p.green() as usize);
    out.push(SPACE);
    push_decimal(out, p.blue() as usize);
    assert(out@ =~= old(out)@ + pixel_text(p));
}

/// Appends one row in text.
pub fn push_row(out: &mut Vec<u8>, row: &[Pixel])
    ensures
        final(out)@ == old(out)@ + row_text(row@),
{
    let mut w: usize = 0;
    assert(row@.take(0).len() == 0);
    assert(out@ =~= old(out)@ + row_text(row@.take(0)));
    while w < row.len()
        invariant
            w <= row@.len(),
            out@ == old(out)@ + row_text(row@.take(w as int)),
        decreases row@.len() - w,
    {
        let ghost before = out@;
        if w > 0 {
            out.push(SPACE);
        }
        push_pixel(out, row[w]);
        proof {
            let next = row@.take(w + 1);
            assert(next.drop_last() =~= row@.take(w as int));
            assert(next.last() == row@[w as int]);
            assert(out@ =~= old(out)@ + row_text(next));
        }
        w += 1;
    }
    assert(row@.take(w as int) =~= row@);
}

/// Writes an image as a text file: the header lines, then one line for each
/// row of the image, the last of them without a newline.
///
/// Unless the format tag holds a newline, the text decoder reads the same
/// image back from these bytes.
pub fn encode_text(image: &Image) -> (out: Vec<u8>)
    ensures
        out@ == encode_text_spec(image@),
        no_newline_char(image@.magic) ==> decode_text_spec(out@) == Ok::<ImageView, DecodeError>(
            image@,
        ),
{
    let pixels = image.raster();
    let count: usize = pixels.len();
    let height = image.height();
    let width = image.width();
    let max_color = image.max_color();
    proof {
        if no_newline_char(image@.magic) {
            lemma_decode_encode(image@);
        }
    }
    let mut out: Vec<u8> = Vec::new();
    out.extend_from_slice(image.magic().as_bytes());
    assert(out@ =~= encode_utf8(image@.magic));
    out.push(NEWLINE);
    push_decimal(&mut out, height);
    out.push(SPACE);
    push_decimal(&mut out, width);
    out.push(NEWLINE);
    push_decimal(&mut out, max_color);
    out.push(NEWLINE);
    assert(out@ =~= header_text(image@));
    let mut h: usize = 0;
    assert(out@ =~= header_text(image@) + raster_text(pixels@, 0, width as nat));
    while h < height
        invariant
            h <= height,
            pixels@.len() == height * width,
            pixels@.len() == count,
            out@ == header_text(image@) + raster_text(pixels@, h as nat, width as nat),
        decreases height - h,
    {
        assert(0 <= h * width && h * width + width <= height * width) by (nonlinear_arith)
            requires
                h < height,
        ;
        if h > 0 {
            out.push(NEWLINE);
        }
        let base: usize = h * width;
        let row = slice_subrange(pixels, base, base + width);
        push_row(&mut out, row);
        h += 1;
        assert(out@ =~= header_text(image@) + raster_text(pixels@, h as nat, width as nat));
    }
    out
}

} // verus!
