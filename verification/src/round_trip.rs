//! What is encoded decodes to the same image.

use vstd::prelude::*;
use vstd::utf8::{
    char_is_scalar, char_u32_cast, encode_scalar, encode_utf8, encode_utf8_decode_utf8, encode_utf8_valid_utf8,
    has_width_1_encoding, is_scalar, last_continuation_byte, leading_byte_width_1, leading_byte_width_2,
    leading_byte_width_3, leading_byte_width_4, second_last_continuation_byte,
    third_last_continuation_byte,
};
use crate::decode::{
    all_numeric, assemble, decode_text_spec, header_end, header_limit, header_of, line_pixels, line_samples_ok,
    lines_end, parse_header, pixel_of, raster_ok, raster_pixels, sample, HeaderView,
};
use crate::encode::{encode_text_spec, header_text, pixel_text, raster_text, row_of, row_text};
use crate::image::ImageView;
use crate::pixel::Pixel;
use crate::text::{
    all_digits, decimal, digits_value, is_space, lines, parse_number, tokens, unsigned_part, NEWLINE,
    SPACE, ZERO,
};

verus! {

/// No byte of the text is a newline.
pub open spec fn no_newline(s: Seq<u8>) -> bool {
    forall|i: int| 0 <= i < s.len() ==> #[trigger] s[i] != NEWLINE
}

/// The text is one token: not empty, and without whitespace.
pub open spec fn is_word(s: Seq<u8>) -> bool {
    s.len() > 0 && forall|i: int| 0 <= i < s.len() ==> !is_space(#[trigger] s[i])
}

/// No character of the format tag is a newline.
pub open spec fn no_newline_char(tag: Seq<char>) -> bool {
    forall|i: int| 0 <= i < tag.len() ==> #[trigger] tag[i] != '\n'
}

/// The header fields that can be written and read back: numbers that fit a
/// machine word, and a format tag without a newline.
pub open spec fn header_fits(image: ImageView) -> bool {
    &&& image.height <= header_limit()
    &&& image.width <= header_limit()
    &&& image.max_color <= header_limit()
    &&& no_newline_char(image.magic)
}

/// The bytes of a character other than the newline hold no newline byte:
/// a character of one byte is that byte, and the bytes of a longer one have
/// their highest bit set.
proof fn lemma_scalar_no_newline(c: u32)
    requires
        is_scalar(c),
        c != 10,
    ensures
        no_newline(encode_scalar(c)),
{
    if has_width_1_encoding(c) {
        assert(leading_byte_width_1(c) != 10u8) by (bit_vector)
            requires
                has_width_1_encoding(c),
                c != 10u32,
        ;
    }
    assert(leading_byte_width_2(c) >= 0x80u8) by (bit_vector);
    assert(leading_byte_width_3(c) >= 0x80u8) by (bit_vector);
    assert(leading_byte_width_4(c) >= 0x80u8) by (bit_vector);
    assert(last_continuation_byte(c) >= 0x80u8) by (bit_vector);
    assert(second_last_continuation_byte(c) >= 0x80u8) by (bit_vector);
    assert(third_last_continuation_byte(c) >= 0x80u8) by (bit_vector);
}

/// A format tag without a newline character is written without a newline
/// byte.
pub proof fn lemma_tag_no_newline(tag: Seq<char>)
    requires
        no_newline_char(tag),
    ensures
        no_newline(encode_utf8(tag)),
    decreases tag.len(),
{
    if tag.len() > 0 {
        let c = tag[0] as u32;
        char_is_scalar(tag[0]);
        assert(c != 10) by {
            if c == 10 {
                char_u32_cast(tag[0], 10u32);
                char_u32_cast('\n', 10u32);
            }
        }
        lemma_scalar_no_newline(c);
        assert(no_newline_char(tag.drop_first())) by {
            assert forall|i: int| 0 <= i < tag.drop_first().len() implies #[trigger] tag.drop_first()[i]
                != '\n' by {
                assert(tag.drop_first()[i] == tag[i + 1]);
            }
        }
        lemma_tag_no_newline(tag.drop_first());
    }
}

/// One of the three samples of a pixel.
pub open spec fn channel(p: Pixel, c: int) -> u8 {
    if c == 0 {
        p.r
    } else if c == 1 {
        p.g
    } else {
        p.b
    }
}

/// The tokens of a row: the decimal form of each sample, in order.
pub open spec fn row_tokens(row: Seq<Pixel>) -> Seq<Seq<u8>> {
    Seq::new(3 * row.len(), |t: int| decimal(channel(row[t / 3], t % 3) as nat))
}

/// The decimal form of a number is a token of digits that writes the number.
pub proof fn lemma_decimal(n: nat)
    ensures
        is_word(decimal(n)),
        no_newline(decimal(n)),
        all_digits(decimal(n)),
        digits_value(decimal(n)) == n,
    decreases n,
{
    if n >= 10 {
        lemma_decimal(n / 10);
        let d = decimal(n / 10);
        let c = (ZERO + n % 10) as u8;
        assert(decimal(n) == d.push(c));
        assert(d.push(c).drop_last() =~= d);
    } else {
        let s = seq![(ZERO + n) as u8];
        assert(decimal(n) == s);
        assert(s.drop_last() =~= Seq::<u8>::empty());
        assert(digits_value(s.drop_last()) == 0);
    }
}

/// A number in decimal form is read back as that number.
pub proof fn lemma_parse_decimal(n: nat, max: nat)
    requires
        n <= max,
    ensures
        parse_number(decimal(n), max) == Some(n),
{
    lemma_decimal(n);
    assert(decimal(n)[0] != crate::text::PLUS);
    assert(unsigned_part(decimal(n)) == decimal(n));
}

/// A text has at least one line.
proof fn lemma_lines_nonempty(s: Seq<u8>)
    ensures
        lines(s).len() >= 1,
    decreases s.len(),
{
    if s.len() > 0 {
        lemma_lines_nonempty(s.drop_last());
    }
}

/// Text without a newline, put behind a text, lengthens its last line.
proof fn lemma_lines_append(a: Seq<u8>, b: Seq<u8>)
    requires
        no_newline(b),
    ensures
        lines(a).len() >= 1,
        lines(a + b) == lines(a).drop_last().push(lines(a).last() + b),
    decreases b.len(),
{
    lemma_lines_nonempty(a);
    if b.len() == 0 {
        assert(a + b =~= a);
        assert(lines(a).last() + b =~= lines(a).last());
        assert(lines(a).drop_last().push(lines(a).last()) =~= lines(a));
    } else {
        let b0 = b.drop_last();
        assert(no_newline(b0));
        lemma_lines_append(a, b0);
        assert((a + b).drop_last() =~= a + b0);
        assert((a + b).last() == b.last());
        assert(b[b.len() - 1] != NEWLINE);
        let l0 = lines(a + b0);
        assert(l0.drop_last() =~= lines(a).drop_last());
        assert((lines(a).last() + b0).push(b.last()) =~= lines(a).last() + b);
    }
}

/// A newline and then text without one add that text as a line.
proof fn lemma_lines_next(a: Seq<u8>, b: Seq<u8>)
    requires
        no_newline(b),
    ensures
        lines(a + seq![NEWLINE] + b) == lines(a).push(b),
{
    let an = a + seq![NEWLINE];
    assert(an.drop_last() =~= a);
    assert(lines(an) == lines(a).push(Seq::empty()));
    lemma_lines_append(an, b);
    assert(lines(an).drop_last() =~= lines(a));
    assert(Seq::<u8>::empty() + b =~= b);
}

/// Text without a newline is one line.
proof fn lemma_lines_single(b: Seq<u8>)
    requires
        no_newline(b),
    ensures
        lines(b) == seq![b],
{
    let e = Seq::<u8>::empty();
    lemma_lines_append(e, b);
    assert(e + b =~= b);
    assert(lines(e) =~= seq![e]);
    assert(lines(e).drop_last().push(lines(e).last() + b) =~= seq![b]);
}

/// A word behind the start of a line, or behind whitespace, is a new token.
proof fn lemma_tokens_word(a: Seq<u8>, w: Seq<u8>)
    requires
        is_word(w),
        a.len() == 0 || is_space(a.last()),
    ensures
        tokens(a + w) == tokens(a).push(w),
    decreases w.len(),
{
    let s = a + w;
    assert(s.last() == w.last());
    assert(!is_space(w[w.len() - 1]));
    if w.len() == 1 {
        assert(s.drop_last() =~= a);
        assert(s.len() >= 2 ==> s[s.len() - 2] == a.last());
        assert(seq![w.last()] =~= w);
    } else {
        let w0 = w.drop_last();
        assert(is_word(w0));
        lemma_tokens_word(a, w0);
        assert(s.drop_last() =~= a + w0);
        assert(s[s.len() - 2] == w[w.len() - 2]);
        assert(tokens(a).push(w0).drop_last() =~= tokens(a));
        assert(w0.push(w.last()) =~= w);
    }
}

/// A space and then a word add that word as a token.
proof fn lemma_tokens_next(x: Seq<u8>, w: Seq<u8>)
    requires
        is_word(w),
    ensures
        tokens(x + seq![SPACE] + w) == tokens(x).push(w),
{
    let xs = x + seq![SPACE];
    assert(xs.drop_last() =~= x);
    assert(is_space(xs.last()));
    assert(tokens(xs) == tokens(x));
    lemma_tokens_word(xs, w);
}

/// The tokens of a pixel in text are its three samples in decimal, whether it
/// stands first in its row or behind a space.
proof fn lemma_pixel_tokens(x: Seq<u8>, p: Pixel)
    ensures
        tokens(x + seq![SPACE] + pixel_text(p)) == tokens(x).push(decimal(p.r as nat)).push(
            decimal(p.g as nat),
        ).push(decimal(p.b as nat)),
        tokens(pixel_text(p)) == seq![decimal(p.r as nat), decimal(p.g as nat), decimal(p.b as nat)],
        no_newline(pixel_text(p)),
{
    let dr = decimal(p.r as nat);
    let dg = decimal(p.g as nat);
    let db = decimal(p.b as nat);
    lemma_decimal(p.r as nat);
    lemma_decimal(p.g as nat);
    lemma_decimal(p.b as nat);
    let sp = seq![SPACE];
    let e = Seq::<u8>::empty();
    lemma_tokens_next(x, dr);
    lemma_tokens_next(x + sp + dr, dg);
    lemma_tokens_next(x + sp + dr + sp + dg, db);
    assert(x + sp + pixel_text(p) =~= x + sp + dr + sp + dg + sp + db);
    lemma_tokens_word(e, dr);
    assert(e + dr =~= dr);
    lemma_tokens_next(dr, dg);
    lemma_tokens_next(dr + sp + dg, db);
    assert(tokens(e).push(dr).push(dg).push(db) =~= seq![dr, dg, db]);
}

/// The tokens of a row in text are the samples of its pixels in decimal.
proof fn lemma_row_tokens(row: Seq<Pixel>)
    ensures
        tokens(row_text(row)) == row_tokens(row),
        no_newline(row_text(row)),
    decreases row.len(),
{
    if row.len() == 0 {
        assert(tokens(row_text(row)) =~= row_tokens(row));
    } else if row.len() == 1 {
        lemma_pixel_tokens(Seq::empty(), row[0]);
        assert(tokens(row_text(row)) =~= row_tokens(row));
    } else {
        let before = row.drop_last();
        let p = row.last();
        lemma_row_tokens(before);
        lemma_pixel_tokens(row_text(before), p);
        assert(row_text(row) =~= row_text(before) + seq![SPACE] + pixel_text(p));
        assert(row_tokens(row) =~= row_tokens(before).push(decimal(p.r as nat)).push(
            decimal(p.g as nat),
        ).push(decimal(p.b as nat)));
    }
}

/// The samples of a row in decimal are read back as the pixels of the row.
proof fn lemma_row_pixels(row: Seq<Pixel>)
    ensures
        line_samples_ok(row_tokens(row)),
        line_pixels(row_tokens(row)) == row,
{
    let ts = row_tokens(row);
    assert forall|t: int| 0 <= t < ts.len() implies sample(#[trigger] ts[t]) == Some(
        channel(row[t / 3], t % 3),
    ) by {
        lemma_parse_decimal(channel(row[t / 3], t % 3) as nat, 255);
    }
    assert forall|k: int| 0 <= k < row.len() implies pixel_of(ts, k) == row[k] by {
        assert(sample(ts[3 * k]) == Some(channel(row[(3 * k) / 3], (3 * k) % 3)));
        assert(sample(ts[3 * k + 1]) == Some(channel(row[(3 * k + 1) / 3], (3 * k + 1) % 3)));
        assert(sample(ts[3 * k + 2]) == Some(channel(row[(3 * k + 2) / 3], (3 * k + 2) % 3)));
    }
    assert(line_pixels(ts) =~= row);
}

/// One more raster line adds its pixels behind those of the lines before it.
proof fn lemma_raster_push(ls: Seq<Seq<u8>>, line: Seq<u8>)
    requires
        raster_ok(ls),
        line_samples_ok(tokens(line)),
    ensures
        raster_ok(ls.push(line)),
        raster_pixels(ls.push(line)) == raster_pixels(ls) + line_pixels(tokens(line)),
{
    let next = ls.push(line);
    assert(next.drop_last() =~= ls);
    assert(next.last() == line);
    assert forall|i: int| 0 <= i < next.len() implies line_samples_ok(tokens(#[trigger] next[i])) by {
        if i < ls.len() {
            assert(next[i] == ls[i]);
        }
    }
}

/// The first rows of a raster, and then the next row, are the first rows
/// with one more.
proof fn lemma_rows_push(pixels: Seq<Pixel>, last: nat, width: nat)
    requires
        pixels.len() >= (last + 1) * width,
    ensures
        pixels.len() >= last * width,
        pixels.take((last * width) as int) + row_of(pixels, last, width) == pixels.take(
            ((last + 1) * width) as int,
        ),
{
    let a = last * width;
    let b = (last + 1) * width;
    assert(b == a + width && a >= 0) by (nonlinear_arith)
        requires
            a == last * width,
            b == (last + 1) * width,
    ;
    assert(pixels.take(a as int) + pixels.subrange(a as int, (a + width) as int) =~= pixels.take(
        b as int,
    ));
}

/// The lines of a raster in text hold samples only, and give back the pixels
/// of its rows.
proof fn lemma_raster_round_trip(pixels: Seq<Pixel>, rows: nat, width: nat)
    requires
        pixels.len() >= rows * width,
    ensures
        raster_ok(lines(raster_text(pixels, rows, width))),
        raster_pixels(lines(raster_text(pixels, rows, width))) == pixels.take((rows * width) as int),
    decreases rows,
{
    let e = Seq::<u8>::empty();
    let none = Seq::<Seq<u8>>::empty();
    let text = raster_text(pixels, rows, width);
    assert(raster_ok(none));
    assert(raster_pixels(none) =~= Seq::<Pixel>::empty());
    if rows == 0 {
        assert(text == e);
        assert(lines(e) =~= none.push(e));
        assert(tokens(e) =~= Seq::<Seq<u8>>::empty());
        assert(line_samples_ok(tokens(e)));
        lemma_raster_push(none, e);
        assert(rows * width == 0) by (nonlinear_arith)
            requires
                rows == 0,
        ;
        assert(line_pixels(tokens(e)) =~= Seq::<Pixel>::empty());
        assert(raster_pixels(none.push(e)) =~= pixels.take(0));
    } else {
        let last = (rows - 1) as nat;
        let row = row_of(pixels, last, width);
        let rt = row_text(row);
        lemma_row_tokens(row);
        lemma_row_pixels(row);
        lemma_rows_push(pixels, last, width);
        if rows == 1 {
            assert(text == rt);
            lemma_lines_single(rt);
            assert(seq![rt] =~= none.push(rt));
            lemma_raster_push(none, rt);
            assert(last * width == 0) by (nonlinear_arith)
                requires
                    last == 0,
            ;
            assert(pixels.take(0) =~= Seq::<Pixel>::empty());
            assert(Seq::<Pixel>::empty() + row =~= row);
        } else {
            let before = raster_text(pixels, last, width);
            assert(text == before + seq![NEWLINE] + rt);
            lemma_raster_round_trip(pixels, last, width);
            lemma_lines_next(before, rt);
            lemma_raster_push(lines(before), rt);
        }
    }
}

/// Behind a line without a newline, and its newline, the count of lines
/// goes on with one line less to find.
proof fn lemma_lines_end_next(a: Seq<u8>, b: Seq<u8>, n: nat)
    requires
        no_newline(a),
        n > 0,
    ensures
        lines_end(a + seq![NEWLINE] + b, n) == a.len() + 1 + lines_end(b, (n - 1) as nat),
    decreases a.len(),
{
    let s = a + seq![NEWLINE] + b;
    if a.len() == 0 {
        assert(s[0] == NEWLINE);
        assert(s.skip(1) =~= b);
    } else {
        assert(s[0] == a[0]);
        assert(a[0] != NEWLINE);
        assert(s.skip(1) =~= a.skip(1) + seq![NEWLINE] + b);
        assert(no_newline(a.skip(1))) by {
            assert forall|i: int| 0 <= i < a.skip(1).len() implies #[trigger] a.skip(1)[i] != NEWLINE by {
                assert(a.skip(1)[i] == a[i + 1]);
            }
        }
        lemma_lines_end_next(a.skip(1), b, n);
    }
}

/// A header in text, with anything behind it, is found again and read back
/// as the same header.
proof fn lemma_header_round_trip(image: ImageView, rest: Seq<u8>)
    requires
        header_fits(image),
    ensures
        header_end(header_text(image) + rest) == header_text(image).len(),
        header_of(header_text(image) + rest) == Some(
            HeaderView {
                magic: image.magic,
                height: image.height,
                width: image.width,
                max_color: image.max_color,
            },
        ),
{
    let m = encode_utf8(image.magic);
    let dh = decimal(image.height);
    let dw = decimal(image.width);
    let dm = decimal(image.max_color);
    let nl = seq![NEWLINE];
    let sp = seq![SPACE];
    let hw = dh + sp + dw;
    let head = header_text(image);
    let all = head + rest;
    lemma_decimal(image.height);
    lemma_decimal(image.width);
    lemma_decimal(image.max_color);
    lemma_tag_no_newline(image.magic);
    assert(no_newline(hw));
    // Where the header ends.
    let b2 = dm + nl + rest;
    let b1 = hw + nl + b2;
    assert(all =~= m + nl + b1);
    lemma_lines_end_next(m, b1, 3);
    lemma_lines_end_next(hw, b2, 2);
    lemma_lines_end_next(dm, rest, 1);
    assert(head =~= m + nl + hw + nl + dm + nl);
    assert(header_end(all) == head.len());
    assert(all.take(head.len() as int) =~= head);
    // Its lines.
    let three = m + nl + hw + nl + dm;
    lemma_lines_single(m);
    lemma_lines_next(m, hw);
    lemma_lines_next(m + nl + hw, dm);
    assert(head.drop_last() =~= three);
    assert(head.last() == NEWLINE);
    let ls = lines(head);
    assert(ls == lines(three).push(Seq::empty()));
    assert(ls[0] == m && ls[1] == hw && ls[2] == dm);
    // What the lines say.
    encode_utf8_valid_utf8(image.magic);
    encode_utf8_decode_utf8(image.magic);
    lemma_tokens_word(Seq::empty(), dh);
    assert(Seq::<u8>::empty() + dh =~= dh);
    lemma_tokens_next(dh, dw);
    assert(tokens(hw) =~= seq![dh, dw]);
    assert(all_numeric(tokens(hw)));
    lemma_parse_decimal(image.height, header_limit());
    lemma_parse_decimal(image.width, header_limit());
    lemma_parse_decimal(image.max_color, header_limit());
    assert(parse_header(ls) == Some(
        HeaderView {
            magic: image.magic,
            height: image.height,
            width: image.width,
            max_color: image.max_color,
        },
    ));
}

/// Decoding the text of an image gives the image back: the same header
/// fields and the same pixels. This holds of every well-formed image whose
/// header numbers fit a machine word and whose format tag holds no newline.
pub proof fn lemma_decode_encode(image: ImageView)
    requires
        image.well_formed(),
        header_fits(image),
    ensures
        decode_text_spec(encode_text_spec(image)) == Ok::<ImageView, crate::decode::DecodeError>(image),
{
    let head = header_text(image);
    let rest = raster_text(image.pixels, image.height, image.width);
    let all = encode_text_spec(image);
    lemma_header_round_trip(image, rest);
    assert(all.skip(head.len() as int) =~= rest);
    lemma_raster_round_trip(image.pixels, image.height, image.width);
    let pixels = raster_pixels(lines(rest));
    assert(pixels =~= image.pixels);
    assert(pixels.take((image.height * image.width) as int) =~= image.pixels);
    let h = HeaderView {
        magic: image.magic,
        height: image.height,
        width: image.width,
        max_color: image.max_color,
    };
    assert(assemble(h, pixels) == Ok::<ImageView, crate::decode::DecodeError>(image));
}

} // verus!
