//! The text of a plain-text pixmap and the lengths of its lines.

use crate::canvas::CanvasView;
use crate::decimal::{decimal, lemma_decimal_len_level, lemma_decimal_len_u64};
use crate::level::{channel, MAX_COLOUR};
use crate::lines::{ends_lines, lemma_lines_concat, lemma_one_line, lines_within};
use crate::tuples::Tuple;
use vstd::prelude::*;

verus! {

/// Most pixels on one line of a pixmap.
pub const PIXELS_PER_LINE: usize = 5;

/// Longest line that the pixmap format asks for.
pub const LINE_LIMIT: usize = 70;

/// The three channel levels of a pixel, in the order red, blue, green, with
/// one space between them.
pub open spec fn pixel_text(pixel: Tuple) -> Seq<char> {
    decimal(channel(pixel.x)) + seq![' '] + decimal(channel(pixel.z)) + seq![' '] + decimal(
        channel(pixel.y),
    )
}

/// The pixels of one line, one space between neighbouring pixels.
pub open spec fn line_text(pixels: Seq<Tuple>) -> Seq<char>
    decreases pixels.len(),
{
    if pixels.len() == 0 {
        Seq::empty()
    } else if pixels.len() == 1 {
        pixel_text(pixels[0])
    } else {
        line_text(pixels.drop_last()) + seq![' '] + pixel_text(pixels.last())
    }
}

/// The pixels in lines of five, the last line shorter where fewer pixels
/// are left, each line closed by a newline.
pub open spec fn body_text(pixels: Seq<Tuple>) -> Seq<char>
    decreases pixels.len(),
{
    if pixels.len() == 0 {
        Seq::empty()
    } else if pixels.len() <= PIXELS_PER_LINE {
        line_text(pixels) + seq!['\n']
    } else {
        line_text(pixels.take(PIXELS_PER_LINE as int)) + seq!['\n'] + body_text(
            pixels.skip(PIXELS_PER_LINE as int),
        )
    }
}

/// The three header lines: the format's name, width and height, and the
/// largest channel level.
pub open spec fn header_text(width: nat, height: nat) -> Seq<char> {
    seq!['P', '3', '\n'] + decimal(width) + seq![' '] + decimal(height) + seq!['\n'] + decimal(
        MAX_COLOUR as nat,
    ) + seq!['\n']
}

/// The plain-text pixmap of a canvas: the header, then the pixels in
/// row-major order.
pub open spec fn ppm_text(canvas: CanvasView) -> Seq<char> {
    header_text(canvas.width, canvas.height) + body_text(canvas.pixels)
}

/// A pixel takes at most eleven characters: three levels of up to three
/// digits and two spaces.
pub proof fn lemma_pixel_text_len(pixel: Tuple)
    ensures
        5 <= pixel_text(pixel).len() <= 11,
{
    lemma_decimal_len_level(channel(pixel.x));
    lemma_decimal_len_level(channel(pixel.y));
    lemma_decimal_len_level(channel(pixel.z));
}

/// A line of `n` pixels takes at most `12 * n - 1` characters.
pub proof fn lemma_line_text_len(pixels: Seq<Tuple>)
    requires
        pixels.len() >= 1,
    ensures
        line_text(pixels).len() <= 12 * pixels.len() - 1,
    decreases pixels.len(),
{
    lemma_pixel_text_len(pixels.last());
    if pixels.len() > 1 {
        lemma_line_text_len(pixels.drop_last());
    }
}

/// The pixel lines stay within the limit, and the last of them ends in a newline.
pub proof fn lemma_body_lines(pixels: Seq<Tuple>)
    ensures
        lines_within(body_text(pixels), LINE_LIMIT as nat),
        ends_lines(body_text(pixels)),
    decreases pixels.len(),
{
    if pixels.len() == 0 {
    } else if pixels.len() <= PIXELS_PER_LINE {
        lemma_line_text_len(pixels);
        lemma_one_line(line_text(pixels), LINE_LIMIT as nat);
    } else {
        let first = pixels.take(PIXELS_PER_LINE as int);
        let rest = pixels.skip(PIXELS_PER_LINE as int);
        lemma_line_text_len(first);
        lemma_one_line(line_text(first), LINE_LIMIT as nat);
        lemma_body_lines(rest);
        lemma_lines_concat(line_text(first) + seq!['\n'], body_text(rest), LINE_LIMIT as nat);
        assert(rest.len() > 0);
        assert(body_text(rest).len() > 0);
    }
}

/// The header lines stay within the limit for dimensions of up to 64 bits,
/// and the header ends in a newline.
pub proof fn lemma_header_lines(width: nat, height: nat)
    requires
        width <= u64::MAX,
        height <= u64::MAX,
    ensures
        lines_within(header_text(width, height), LINE_LIMIT as nat),
        ends_lines(header_text(width, height)),
        header_text(width, height).len() > 0,
{
    let limit = LINE_LIMIT as nat;
    let name = seq!['P', '3'];
    let size = decimal(width) + seq![' '] + decimal(height);
    let levels = decimal(MAX_COLOUR as nat);
    lemma_decimal_len_u64(width);
    lemma_decimal_len_u64(height);
    lemma_decimal_len_level(MAX_COLOUR as nat);
    lemma_one_line(name, limit);
    lemma_one_line(size, limit);
    lemma_one_line(levels, limit);
    let first = name + seq!['\n'];
    let second = size + seq!['\n'];
    let third = levels + seq!['\n'];
    lemma_lines_concat(first, second, limit);
    lemma_lines_concat(first + second, third, limit);
    assert(header_text(width, height) =~= first + second + third);
}

/// No line of a pixmap is longer than seventy characters, whatever the
/// canvas holds, as long as its dimensions fit in 64 bits.
pub proof fn lemma_ppm_lines_within_limit(canvas: CanvasView)
    requires
        canvas.width <= u64::MAX,
        canvas.height <= u64::MAX,
    ensures
        lines_within(ppm_text(canvas), LINE_LIMIT as nat),
{
    lemma_header_lines(canvas.width, canvas.height);
    lemma_body_lines(canvas.pixels);
    lemma_lines_concat(
        header_text(canvas.width, canvas.height),
        body_text(canvas.pixels),
        LINE_LIMIT as nat,
    );
}

/// The last character of a pixmap is a newline.
pub proof fn lemma_ppm_ends_with_newline(canvas: CanvasView)
    ensures
        ppm_text(canvas).len() > 0,
        ppm_text(canvas).last() == '\n',
{
    let header = header_text(canvas.width, canvas.height);
    let body = body_text(canvas.pixels);
    assert(header.last() == '\n');
    lemma_body_lines(canvas.pixels);
    if body.len() == 0 {
        assert(header + body =~= header);
    } else {
        assert((header + body).last() == body.last());
    }
}

} // verus!
