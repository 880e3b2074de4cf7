//! The decoders: from the bytes of a file to an image.
//!
//! Both variants of the format open with three header lines: the format tag,
//! then the height and the width (in this order), then the largest sample
//! value. In the text variant the rest is lines of decimal samples; in the
//! binary variant it is one byte for each sample. Samples of two bytes, which
//! the format asks for where the largest sample value exceeds 255, are not
//! read: every sample is taken to be one byte.

use vstd::prelude::*;
use vstd::slice::slice_subrange;
use vstd::utf8::{decode_utf8, valid_utf8};
use crate::image::{Image, ImageView};
use crate::pixel::Pixel;
use crate::text::{
    is_number, is_numeric, lines, parse_number, read_number, split_lines, split_tokens, tokens, views,
    NEWLINE,
};

verus! {

/// Why a file could not be decoded.
#[derive(Debug, Clone, Copy, PartialEq, Eq, Structural)]
pub enum DecodeError {
    /// A header line is missing, or a header number is not a number.
    MalformedHeader,
    /// A token of the raster is not a number from 0 to 255.
    InvalidSample,
    /// The raster holds fewer pixels than the header announces.
    TruncatedRaster,
}

/// The header of a file.
#[derive(Debug)]
pub struct Header {
    pub magic: String,
    pub height: usize,
    pub width: usize,
    pub max_color: usize,
}

/// What a header says.
pub struct HeaderView {
    pub magic: Seq<char>,
    pub height: nat,
    pub width: nat,
    pub max_color: nat,
}

impl View for Header {
    type V = HeaderView;

    open spec fn view(&self) -> HeaderView {
        HeaderView {
            magic: self.magic@,
            height: self.height as nat,
            width: self.width as nat,
            max_color: self.max_color as nat,
        }
    }
}

/// The largest number that a header field may hold.
pub open spec fn header_limit() -> nat {
    usize::MAX as nat
}

/// The length of the shortest prefix of `s` that holds `n` newlines, or the
/// length of `s` where it has fewer.
pub open spec fn lines_end(s: Seq<u8>, n: nat) -> nat
    decreases s.len(),
{
    if n == 0 || s.len() == 0 {
        0
    } else if s[0] == NEWLINE {
        1 + lines_end(s.skip(1), (n - 1) as nat)
    } else {
        1 + lines_end(s.skip(1), n)
    }
}

/// Where the header ends and the raster begins: behind the third newline.
pub open spec fn header_end(s: Seq<u8>) -> nat {
    lines_end(s, 3)
}

/// Every token is written as a number.
pub open spec fn all_numeric(toks: Seq<Seq<u8>>) -> bool {
    forall|t: int| 0 <= t < toks.len() ==> is_numeric(#[trigger] toks[t])
}

/// The header that the lines of a file's head give: the first line is the
/// format tag, taken whole; the first two tokens of the second are the height
/// and the width, and what tokens follow them must be written as numbers too;
/// the third line, taken whole, is the largest sample value.
pub open spec fn parse_header(ls: Seq<Seq<u8>>) -> Option<HeaderView> {
    if ls.len() < 3 || !valid_utf8(ls[0]) || tokens(ls[1]).len() < 2 || !all_numeric(tokens(ls[1])) {
        None
    } else {
        let sizes = tokens(ls[1]);
        match (
            parse_number(sizes[0], header_limit()),
            parse_number(sizes[1], header_limit()),
            parse_number(ls[2], header_limit()),
        ) {
            (Some(height), Some(width), Some(max_color)) => Some(
                HeaderView { magic: decode_utf8(ls[0]), height, width, max_color },
            ),
            _ => None,
        }
    }
}

/// The header of a file, read from its first three lines.
pub open spec fn header_of(data: Seq<u8>) -> Option<HeaderView> {
    parse_header(lines(data.take(header_end(data) as int)))
}

/// The sample that a token stands for, if it is a number from 0 to 255.
pub open spec fn sample(token: Seq<u8>) -> Option<u8> {
    match parse_number(token, 255) {
        Some(v) => Some(v as u8),
        None => None,
    }
}

/// Every token that belongs to a complete triplet of the line is a sample.
pub open spec fn line_samples_ok(toks: Seq<Seq<u8>>) -> bool {
    forall|t: int| 0 <= t < 3 * (toks.len() / 3) ==> sample(#[trigger] toks[t]) is Some
}

/// The pixel that the `k`-th triplet of a line's tokens gives.
pub open spec fn pixel_of(toks: Seq<Seq<u8>>, k: int) -> Pixel {
    Pixel {
        r: sample(toks[3 * k]).unwrap(),
        g: sample(toks[3 * k + 1]).unwrap(),
        b: sample(toks[3 * k + 2]).unwrap(),
    }
}

/// The pixels of one line: one for each complete triplet of tokens. Tokens
/// left over at the end of the line are dropped.
pub open spec fn line_pixels(toks: Seq<Seq<u8>>) -> Seq<Pixel> {
    Seq::new(toks.len() / 3, |k: int| pixel_of(toks, k))
}

/// Every raster line holds samples only.
pub open spec fn raster_ok(ls: Seq<Seq<u8>>) -> bool {
    forall|i: int| 0 <= i < ls.len() ==> line_samples_ok(tokens(#[trigger] ls[i]))
}

/// The pixels of the raster lines, line after line.
pub open spec fn raster_pixels(ls: Seq<Seq<u8>>) -> Seq<Pixel>
    decreases ls.len(),
{
    if ls.len() == 0 {
        Seq::empty()
    } else {
        raster_pixels(ls.drop_last()) + line_pixels(tokens(ls.last()))
    }
}

/// The image that a header and a raster of at least `height * width` pixels
/// give: the first `height * width` of them.
pub open spec fn assemble(h: HeaderView, pixels: Seq<Pixel>) -> Result<ImageView, DecodeError> {
    if pixels.len() < h.height * h.width {
        Err(DecodeError::TruncatedRaster)
    } else {
        Ok(
            ImageView {
                magic: h.magic,
                height: h.height,
                width: h.width,
                max_color: h.max_color,
                pixels: pixels.take((h.height * h.width) as int),
            },
        )
    }
}

/// An assembled image is well formed: its raster has `height * width` pixels.
pub proof fn lemma_assemble_well_formed(h: HeaderView, pixels: Seq<Pixel>)
    ensures
        assemble(h, pixels) is Ok <==> pixels.len() >= h.height * h.width,
        assemble(h, pixels) matches Ok(image) ==> image.well_formed(),
{
}

/// What a text file decodes to.
pub open spec fn decode_text_spec(data: Seq<u8>) -> Result<ImageView, DecodeError> {
    let body = lines(data.skip(header_end(data) as int));
    match header_of(data) {
        None => Err(DecodeError::MalformedHeader),
        Some(h) => if !raster_ok(body) {
            Err(DecodeError::InvalidSample)
        } else {
            assemble(h, raster_pixels(body))
        },
    }
}

/// The pixels that the complete groups of three bytes give.
pub open spec fn binary_pixels(raster: Seq<u8>) -> Seq<Pixel> {
    Seq::new(
        raster.len() / 3,
        |k: int| Pixel { r: raster[3 * k], g: raster[3 * k + 1], b: raster[3 * k + 2] },
    )
}

/// What a binary file decodes to.
pub open spec fn decode_binary_spec(data: Seq<u8>) -> Result<ImageView, DecodeError> {
    match header_of(data) {
        None => Err(DecodeError::MalformedHeader),
        Some(h) => assemble(h, binary_pixels(data.skip(header_end(data) as int))),
    }
}

/// Whether a decoder's result is the one expected.
pub open spec fn decoded_as(r: Result<Image, DecodeError>, expected: Result<ImageView, DecodeError>) -> bool {
    match expected {
        Ok(v) => r matches Ok(image) && image@ == v,
        Err(e) => r matches Err(x) && x == e,
    }
}

/// `String::from_utf8` of std, on a copy of the bytes: it gives a string
/// exactly where the bytes are well-formed UTF-8, and the string then holds
/// the characters that the bytes encode.
#[verifier::external_body]
fn string_from_utf8(bytes: &[u8]) -> (r: Option<String>)
    ensures
        r is Some <==> valid_utf8(bytes@),
        r matches Some(s) ==> s@ == decode_utf8(bytes@),
{
    String::from_utf8(bytes.to_vec()).ok()
}

/// Finds where the header ends.
pub fn find_header_end(data: &[u8]) -> (end: usize)
    ensures
        end == header_end(data@),
        end <= data@.len(),
{
    let mut i: usize = 0;
    let mut left: usize = 3;
    assert(data@.skip(0) =~= data@);
    while i < data.len() && left > 0
        invariant
            i <= data@.len(),
            left <= 3,
            header_end(data@) == i + lines_end(data@.skip(i as int), left as nat),
        decreases data@.len() - i,
    {
        assert(data@.skip(i as int).skip(1) =~= data@.skip(i + 1));
        if data[i] == NEWLINE {
            left -= 1;
        }
        i += 1;
    }
    i
}

/// Reads the header from the lines of a file's head.
pub fn header_from_lines(head: &Vec<Vec<u8>>) -> (r: Option<Header>)
    ensures
        match parse_header(views(head@)) {
            Some(h) => r matches Some(x) && x@ == h,
            None => r is None,
        },
{
    if head.len() < 3 {
        return None;
    }
    let sizes = split_tokens(head[1].as_slice());
    if sizes.len() < 2 {
        return None;
    }
    assert(views(sizes@)[0] == sizes@[0]@ && views(sizes@)[1] == sizes@[1]@);
    assert(views(head@)[1] == head@[1]@);
    let mut t: usize = 2;
    while t < sizes.len()
        invariant
            2 <= t <= sizes@.len(),
            head@.len() >= 3,
            views(sizes@) == tokens(views(head@)[1]),
            forall|j: int| 2 <= j < t ==> is_numeric(#[trigger] views(sizes@)[j]),
        decreases sizes@.len() - t,
    {
        assert(views(sizes@)[t as int] == sizes@[t as int]@);
        if !is_number(sizes[t].as_slice()) {
            assert(!all_numeric(views(sizes@)));
            return None;
        }
        t += 1;
    }
    let magic = string_from_utf8(head[0].as_slice());
    let height = read_number(sizes[0].as_slice(), usize::MAX);
    let width = read_number(sizes[1].as_slice(), usize::MAX);
    let max_color = read_number(head[2].as_slice(), usize::MAX);
    match (magic, height, width, max_color) {
        (Some(magic), Some(height), Some(width), Some(max_color)) => Some(
            Header { magic, height, width, max_color },
        ),
        _ => None,
    }
}

/// A file whose second line holds a token that is not written as a number has
/// no header, so that both decoders report a malformed header.
pub proof fn lemma_size_not_numeric(data: Seq<u8>, t: int)
    requires
        lines(data.take(header_end(data) as int)).len() >= 2,
        0 <= t < tokens(lines(data.take(header_end(data) as int))[1]).len(),
        !is_numeric(tokens(lines(data.take(header_end(data) as int))[1])[t]),
    ensures
        header_of(data) is None,
        decode_text_spec(data) == Err::<ImageView, DecodeError>(DecodeError::MalformedHeader),
        decode_binary_spec(data) == Err::<ImageView, DecodeError>(DecodeError::MalformedHeader),
{
}

/// The header ends within the file.
pub proof fn lemma_lines_end_bound(s: Seq<u8>, n: nat)
    ensures
        lines_end(s, n) <= s.len(),
    decreases s.len(),
{
    if n > 0 && s.len() > 0 {
        if s[0] == NEWLINE {
            lemma_lines_end_bound(s.skip(1), (n - 1) as nat);
        } else {
            lemma_lines_end_bound(s.skip(1), n);
        }
    }
}

/// A binary file with a header is reported as truncated exactly where fewer
/// than `3 * height * width` bytes stand behind the header.
pub proof fn lemma_binary_truncated(data: Seq<u8>)
    requires
        header_of(data) is Some,
    ensures
        decode_binary_spec(data) == Err::<ImageView, DecodeError>(DecodeError::TruncatedRaster) <==> data.len()
            - header_end(data) < 3 * (header_of(data).unwrap().height * header_of(
            data,
        ).unwrap().width),
{
    lemma_lines_end_bound(data, 3);
    let raster = data.skip(header_end(data) as int);
    assert(raster.len() == data.len() - header_end(data));
    assert(binary_pixels(raster).len() == raster.len() / 3);
}

/// Reads the header of a file, text or binary, from its first three lines.
pub fn read_header(data: &[u8]) -> (r: Result<Header, DecodeError>)
    ensures
        match header_of(data@) {
            Some(h) => r matches Ok(x) && x@ == h,
            None => r matches Err(e) && e == DecodeError::MalformedHeader,
        },
{
    let end = find_header_end(data);
    let head = split_lines(slice_subrange(data, 0, end));
    match header_from_lines(&head) {
        Some(h) => Ok(h),
        None => Err(DecodeError::MalformedHeader),
    }
}

/// Reads a token as a sample.
pub fn read_sample(token: &[u8]) -> (r: Option<u8>)
    ensures
        r == sample(token@),
{
    match read_number(token, 255) {
        Some(v) => Some(v as u8),
        None => None,
    }
}

/// Appends the pixels of one raster line, or reports that a token of one of
/// its complete triplets is no sample.
pub fn push_line_pixels(line: &[u8], pixels: &mut Vec<Pixel>) -> (ok: bool)
    ensures
        ok == line_samples_ok(tokens(line@)),
        ok ==> final(pixels)@ == old(pixels)@ + line_pixels(tokens(line@)),
{
    let toks = split_tokens(line);
    let count: usize = toks.len() / 3;
    let ghost ts = tokens(line@);
    let mut k: usize = 0;
    assert(pixels@ =~= old(pixels)@ + line_pixels(ts).take(0));
    while k < count
        invariant
            k <= count,
            count == toks@.len() / 3,
            toks@.len() <= usize::MAX,
            views(toks@) == ts,
            ts == tokens(line@),
            forall|t: int| 0 <= t < 3 * k ==> sample(#[trigger] ts[t]) is Some,
            pixels@ == old(pixels)@ + line_pixels(ts).take(k as int),
        decreases count - k,
    {
        assert(ts[3 * k] == toks@[3 * k]@ && ts[3 * k + 1] == toks@[3 * k + 1]@ && ts[3 * k + 2]
            == toks@[3 * k + 2]@);
        let r = read_sample(toks[3 * k].as_slice());
        let g = read_sample(toks[3 * k + 1].as_slice());
        let b = read_sample(toks[3 * k + 2].as_slice());
        match (r, g, b) {
            (Some(r), Some(g), Some(b)) => {
                pixels.push(Pixel::new(r, g, b));
                assert(pixels@ =~= old(pixels)@ + line_pixels(ts).take(k + 1));
            },
            _ => {
                assert(!line_samples_ok(ts));
                return false;
            },
        }
        k += 1;
    }
    assert(line_pixels(ts).take(k as int) =~= line_pixels(ts));
    true
}

/// Reads the raster of a text file from its lines.
pub fn read_raster(body: &Vec<Vec<u8>>) -> (r: Result<Vec<Pixel>, DecodeError>)
    ensures
        raster_ok(views(body@)) ==> (r matches Ok(pixels) && pixels@ == raster_pixels(views(body@))),
        !raster_ok(views(body@)) ==> (r matches Err(e) && e == DecodeError::InvalidSample),
{
    let ghost ls = views(body@);
    let mut pixels: Vec<Pixel> = Vec::new();
    let mut i: usize = 0;
    assert(ls.take(0).len() == 0);
    while i < body.len()
        invariant
            i <= body@.len(),
            ls == views(body@),
            forall|j: int| 0 <= j < i ==> line_samples_ok(tokens(#[trigger] ls[j])),
            pixels@ == raster_pixels(ls.take(i as int)),
        decreases body@.len() - i,
    {
        assert(ls[i as int] == body@[i as int]@);
        proof {
            let next = ls.take(i + 1);
            assert(next.drop_last() =~= ls.take(i as int));
            assert(next.last() == ls[i as int]);
        }
        if !push_line_pixels(body[i].as_slice(), &mut pixels) {
            assert(!raster_ok(ls));
            return Err(DecodeError::InvalidSample);
        }
        i += 1;
    }
    assert(ls.take(i as int) =~= ls);
    Ok(pixels)
}

/// Builds the image from a header and the pixels that were read: the first
/// `height * width` of them, or an error where there are fewer.
pub fn assemble_image(header: Header, pixels: Vec<Pixel>) -> (r: Result<Image, DecodeError>)
    ensures
        decoded_as(r, assemble(header@, pixels@)),
{
    let mut pixels = pixels;
    let have: usize = pixels.len();
    let total = match header.height.checked_mul(header.width) {
        Some(total) => total,
        None => {
            assert(have <= usize::MAX < header@.height * header@.width);
            return Err(DecodeError::TruncatedRaster);
        },
    };
    if have < total {
        return Err(DecodeError::TruncatedRaster);
    }
    pixels.truncate(total);
    Ok(Image::new(header.magic, header.height, header.width, header.max_color, pixels))
}

/// Decodes a text file: three header lines, then lines of decimal samples
/// between whitespace, three to a pixel.
///
/// Fails with `MalformedHeader` where a header line is missing or a header
/// number does not parse, with `InvalidSample` where a token of a complete
/// triplet is no number from 0 to 255, and with `TruncatedRaster` where the
/// lines hold fewer than `height * width` pixels. Pixels beyond that count
/// are left out.
pub fn decode_text(data: &[u8]) -> (r: Result<Image, DecodeError>)
    ensures
        decoded_as(r, decode_text_spec(data@)),
{
    let end = find_header_end(data);
    let head = split_lines(slice_subrange(data, 0, end));
    let header = match header_from_lines(&head) {
        Some(h) => h,
        None => {
            return Err(DecodeError::MalformedHeader);
        },
    };
    let body = split_lines(slice_subrange(data, end, data.len()));
    match read_raster(&body) {
        Ok(pixels) => assemble_image(header, pixels),
        Err(e) => Err(e),
    }
}

/// Decodes a binary file: three header lines, then one byte for each sample,
/// three to a pixel.
///
/// Fails with `MalformedHeader` as the text decoder does, and with
/// `TruncatedRaster` where fewer than `height * width * 3` bytes follow the
/// header. Bytes beyond that count are left out.
pub fn decode_binary(data: &[u8]) -> (r: Result<Image, DecodeError>)
    ensures
        decoded_as(r, decode_binary_spec(data@)),
{
    let end = find_header_end(data);
    let head = split_lines(slice_subrange(data, 0, end));
    let header = match header_from_lines(&head) {
        Some(h) => h,
        None => {
            return Err(DecodeError::MalformedHeader);
        },
    };
    let ghost raster = data@.skip(end as int);
    let available: usize = (data.len() - end) / 3;
    let total = match header.height.checked_mul(header.width) {
        Some(total) => total,
        None => {
            assert(binary_pixels(raster).len() <= usize::MAX < header@.height * header@.width);
            return Err(DecodeError::TruncatedRaster);
        },
    };
    if available < total {
        return Err(DecodeError::TruncatedRaster);
    }
    let mut pixels: Vec<Pixel> = Vec::new();
    let mut k: usize = 0;
    while k < total
        invariant
            k <= total <= available,
            available == (data@.len() - end) / 3,
            end <= data@.len() <= usize::MAX,
            raster == data@.skip(end as int),
            pixels@ == binary_pixels(raster).take(k as int),
        decreases total - k,
    {
        let at: usize = end + 3 * k;
        pixels.push(Pixel::new(data[at], data[at + 1], data[at + 2]));
        assert(pixels@ =~= binary_pixels(raster).take(k + 1));
        k += 1;
    }
    Ok(Image::new(header.magic, header.height, header.width, header.max_color, pixels))
}

} // verus!
