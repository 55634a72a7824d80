//! A grid of colours and its rendering as a plain-text pixmap.

use crate::binary32::lemma_value_zero;
use crate::decimal::push_decimal;
use crate::level::{clamp_color, MAX_COLOUR};
use crate::lines::lines_within;
use crate::ppm::{
    body_text, header_text, lemma_ppm_ends_with_newline, lemma_ppm_lines_within_limit, line_text,
    pixel_text, ppm_text, LINE_LIMIT, PIXELS_PER_LINE,
};
use crate::tuples::{lemma_approx_reflexive_symmetric, Tuple};
use vstd::prelude::*;
use vstd::string::StringExecFns;

verus! {

/// Row-major position of the pixel in column `x` of row `y` on a grid that is `width` wide.
pub fn get_index(width: usize, x: usize, y: usize) -> (index: usize)
    requires
        y * width + x <= usize::MAX,
    ensures
        index == y * width + x,
{
    assert(y * width <= y * width + x);
    y * width + x
}

/// A grid of colours, `width` pixels to the row and `height` rows, kept row
/// after row.
pub struct Canvas {
    pixels: Vec<Tuple>,
    height: usize,
    width: usize,
}

/// What a canvas holds: its two dimensions and its pixels in row-major order.
pub struct CanvasView {
    pub width: nat,
    pub height: nat,
    pub pixels: Seq<Tuple>,
}

impl CanvasView {
    /// There is one pixel for every column of every row.
    pub open spec fn wf(self) -> bool {
        self.pixels.len() == self.width * self.height
    }

    /// Whether column `x` of row `y` lies on the canvas.
    pub open spec fn in_bounds(self, x: nat, y: nat) -> bool {
        x < self.width && y < self.height
    }

    /// Row-major position of column `x` of row `y`.
    pub open spec fn index(self, x: nat, y: nat) -> int {
        (y * self.width + x) as int
    }

    /// The pixel in column `x` of row `y`.
    pub open spec fn pixel(self, x: nat, y: nat) -> Tuple {
        self.pixels[self.index(x, y)]
    }

    /// The canvas with the pixel in column `x` of row `y` replaced by `colour`.
    pub open spec fn with_pixel(self, x: nat, y: nat, colour: Tuple) -> CanvasView {
        CanvasView { pixels: self.pixels.update(self.index(x, y), colour), ..self }
    }

    /// The canvas of the given size with every pixel equal to `colour`.
    pub open spec fn filled(height: nat, width: nat, colour: Tuple) -> CanvasView {
        CanvasView { width, height, pixels: Seq::new(width * height, |i: int| colour) }
    }
}

/// The colour black: no red, no green, no blue.
pub open spec fn black() -> Tuple {
    Tuple { x: 0, y: 0, z: 0, w: 0 }
}

/// On a well-formed canvas every position in bounds has its own pixel.
pub proof fn lemma_index_in_range(c: CanvasView, x: nat, y: nat)
    requires
        c.wf(),
        c.in_bounds(x, y),
    ensures
        0 <= c.index(x, y) < c.pixels.len(),
{
    let w = c.width;
    let h = c.height;
    assert(y * w + x < w * h) by (nonlinear_arith)
        requires
            x < w,
            y < h,
    ;
}

/// Two positions in bounds share a pixel only when they are the same position.
pub proof fn lemma_index_injective(c: CanvasView, x1: nat, y1: nat, x2: nat, y2: nat)
    requires
        c.in_bounds(x1, y1),
        c.in_bounds(x2, y2),
        c.index(x1, y1) == c.index(x2, y2),
    ensures
        x1 == x2 && y1 == y2,
{
    let w = c.width;
    assert(y1 == y2) by (nonlinear_arith)
        requires
            y1 * w + x1 == y2 * w + x2,
            x1 < w,
            x2 < w,
    ;
}

impl View for Canvas {
    type V = CanvasView;

    closed spec fn view(&self) -> CanvasView {
        CanvasView { width: self.width as nat, height: self.height as nat, pixels: self.pixels@ }
    }
}

impl Canvas {
    #[verifier::type_invariant]
    spec fn well_formed(self) -> bool {
        self.pixels.len() == self.width * self.height
    }

    /// A canvas of `height` rows and `width` columns, every pixel black.
    pub fn new(height: usize, width: usize) -> (canvas: Self)
        requires
            height * width <= usize::MAX,
        ensures
            canvas@ == CanvasView::filled(height as nat, width as nat, black()),
            canvas@.wf(),
    {
        Canvas::new_fill(height, width, &Tuple::new_colour(0, 0, 0))
    }

    /// A canvas of `height` rows and `width` columns, every pixel `colour`.
    pub fn new_fill(height: usize, width: usize, colour: &Tuple) -> (canvas: Self)
        requires
            height * width <= usize::MAX,
        ensures
            canvas@ == CanvasView::filled(height as nat, width as nat, *colour),
            canvas@.wf(),
    {
        let pixels = vec![*colour; height * width];
        assert(width * height == height * width) by (nonlinear_arith);
        assert(pixels@ =~= Seq::new((width * height) as nat, |i: int| *colour));
        Canvas { pixels, height, width }
    }

    /// Number of columns.
    pub fn width(&self) -> (width: usize)
        ensures
            width == self@.width,
            self@.wf(),
    {
        proof {
            use_type_invariant(self);
        }
        self.width
    }

    /// Number of rows.
    pub fn height(&self) -> (height: usize)
        ensures
            height == self@.height,
            self@.wf(),
    {
        proof {
            use_type_invariant(self);
        }
        self.height
    }

    /// The pixels in row-major order.
    pub fn pixels(&self) -> (pixels: &Vec<Tuple>)
        ensures
            pixels@ == self@.pixels,
            self@.wf(),
    {
        proof {
            use_type_invariant(self);
        }
        &self.pixels
    }

    /// Replaces the pixel in column `x` of row `y` by `colour`.
    pub fn set_pixel(&mut self, x: usize, y: usize, colour: &Tuple) -> (canvas: &mut Self)
        requires
            old(self)@.in_bounds(x as nat, y as nat),
        ensures
            canvas@ == old(self)@.with_pixel(x as nat, y as nat, *colour),
            canvas@.wf(),
            *final(self) == *final(canvas),
    {
        proof {
            use_type_invariant(&*self);
            lemma_index_in_range(self@, x as nat, y as nat);
        }
        let index = get_index(self.width, x, y);
        self.pixels[index] = *colour;
        self
    }

    /// The pixel in column `x` of row `y`, or nothing when the position is
    /// off the canvas.
    pub fn get_pixel(&self, x: usize, y: usize) -> (pixel: Option<&Tuple>)
        ensures
            self@.in_bounds(x as nat, y as nat) ==> pixel == Some(&self@.pixel(x as nat, y as nat)),
            !self@.in_bounds(x as nat, y as nat) ==> pixel is None,
            self@.wf(),
    {
        proof {
            use_type_invariant(self);
        }
        if x < self.width && y < self.height {
            proof {
                lemma_index_in_range(self@, x as nat, y as nat);
            }
            Some(&self.pixels[get_index(self.width, x, y)])
        } else {
            None
        }
    }
}

/// A canvas that was filled with one colour is well formed, has the
/// dimensions it was made with, and shows that colour at every position;
/// every pixel equals the colour up to the tolerance too when the colour is
/// finite.
pub proof fn lemma_filled_canvas(height: nat, width: nat, colour: Tuple)
    ensures
        CanvasView::filled(height, width, colour).wf(),
        CanvasView::filled(height, width, colour).width == width,
        CanvasView::filled(height, width, colour).height == height,
        forall|x: nat, y: nat|
            x < width && y < height ==> #[trigger] CanvasView::filled(height, width, colour).pixel(
                x,
                y,
            ) == colour,
        colour.is_finite() ==> forall|x: nat, y: nat|
            x < width && y < height ==> (#[trigger] CanvasView::filled(
                height,
                width,
                colour,
            ).pixel(x, y)).approx(colour),
{
    let canvas = CanvasView::filled(height, width, colour);
    lemma_approx_reflexive_symmetric(colour, colour);
    assert forall|x: nat, y: nat| x < width && y < height implies #[trigger] canvas.pixel(x, y)
        == colour by {
        lemma_index_in_range(canvas, x, y);
    }
}

/// Black is a finite colour, so every pixel of a new canvas equals black up
/// to the tolerance.
pub proof fn lemma_black_is_finite()
    ensures
        black().is_finite(),
        black().vector(),
        black().approx(black()),
{
    lemma_value_zero(0);
    lemma_approx_reflexive_symmetric(black(), black());
}

/// Reading a position after writing it gives the written colour back, and
/// every other position in bounds keeps its pixel.
pub proof fn lemma_set_then_get(canvas: CanvasView, x: nat, y: nat, colour: Tuple)
    requires
        canvas.wf(),
        canvas.in_bounds(x, y),
    ensures
        canvas.with_pixel(x, y, colour).wf(),
        canvas.with_pixel(x, y, colour).width == canvas.width,
        canvas.with_pixel(x, y, colour).height == canvas.height,
        canvas.with_pixel(x, y, colour).pixel(x, y) == colour,
        colour.is_finite() ==> canvas.with_pixel(x, y, colour).pixel(x, y).approx(colour),
        forall|x2: nat, y2: nat|
            canvas.in_bounds(x2, y2) && (x2 != x || y2 != y) ==> #[trigger] canvas.with_pixel(
                x,
                y,
                colour,
            ).pixel(x2, y2) == canvas.pixel(x2, y2),
{
    lemma_index_in_range(canvas, x, y);
    lemma_approx_reflexive_symmetric(colour, colour);
    assert forall|x2: nat, y2: nat|
        canvas.in_bounds(x2, y2) && (x2 != x || y2 != y) implies #[trigger] canvas.with_pixel(
        x,
        y,
        colour,
    ).pixel(x2, y2) == canvas.pixel(x2, y2) by {
        lemma_index_in_range(canvas, x2, y2);
        if canvas.index(x2, y2) == canvas.index(x, y) {
            lemma_index_injective(canvas, x, y, x2, y2);
        }
    }
}

/// Appends the three channel levels of a pixel.
fn push_pixel(out: &mut String, pixel: &Tuple)
    ensures
        final(out)@ == old(out)@ + pixel_text(*pixel),
{
    proof {
        reveal_strlit(" ");
    }
    push_decimal(out, clamp_color(pixel.r()));
    out.append(" ");
    push_decimal(out, clamp_color(pixel.b()));
    out.append(" ");
    push_decimal(out, clamp_color(pixel.g()));
    assert(out@ =~= old(out)@ + pixel_text(*pixel));
}

/// Appends the pixels from `from` up to, not including, `to` as one line
/// without its newline.
fn push_line(out: &mut String, pixels: &Vec<Tuple>, from: usize, to: usize)
    requires
        from <= to <= pixels.len(),
    ensures
        final(out)@ == old(out)@ + line_text(pixels@.subrange(from as int, to as int)),
{
    let mut i = from;
    assert(pixels@.subrange(from as int, from as int).len() == 0);
    assert(out@ =~= old(out)@ + line_text(pixels@.subrange(from as int, i as int)));
    while i < to
        invariant
            from <= i <= to <= pixels.len(),
            out@ == old(out)@ + line_text(pixels@.subrange(from as int, i as int)),
        decreases to - i,
    {
        let ghost before = out@;
        let ghost done = pixels@.subrange(from as int, i as int);
        let ghost more = pixels@.subrange(from as int, i + 1);
        proof {
            reveal_strlit(" ");
            assert(more.drop_last() =~= done);
            assert(more.last() == pixels@[i as int]);
        }
        if i > from {
            out.append(" ");
        }
        push_pixel(out, &pixels[i]);
        proof {
            if i > from {
                assert(out@ =~= old(out)@ + (line_text(done) + seq![' '] + pixel_text(
                    pixels@[i as int],
                )));
            } else {
                assert(done.len() == 0);
                assert(more.len() == 1);
                assert(out@ =~= old(out)@ + pixel_text(pixels@[i as int]));
            }
        }
        i += 1;
    }
}

/// Renders a canvas as a plain-text pixmap: the header, then the pixels in
/// row-major order, five to the line. No line is longer than seventy
/// characters, and the text ends in a newline.
#[verifier::rlimit(50)]
pub fn canvas_to_ppm(canvas: &Canvas) -> (text: String)
    ensures
        text@ == ppm_text(canvas@),
        lines_within(text@, LINE_LIMIT as nat),
        text@.len() > 0 && text@.last() == '\n',
{
    let mut ppm = String::new();
    proof {
        lemma_ppm_lines_within_limit(canvas@);
        lemma_ppm_ends_with_newline(canvas@);
        reveal_strlit("P3\n");
        reveal_strlit(" ");
        reveal_strlit("\n");
    }
    ppm.append("P3\n");
    push_decimal(&mut ppm, canvas.width);
    ppm.append(" ");
    push_decimal(&mut ppm, canvas.height);
    ppm.append("\n");
    push_decimal(&mut ppm, MAX_COLOUR);
    ppm.append("\n");
    assert(ppm@ =~= header_text(canvas@.width, canvas@.height));
    let count = canvas.pixels.len();
    let mut from: usize = 0;
    assert(canvas.pixels@.skip(0) =~= canvas.pixels@);
    while from < count
        invariant
            from <= count == canvas.pixels.len(),
            ppm@ + body_text(canvas.pixels@.skip(from as int)) == ppm_text(canvas@),
        decreases count - from,
    {
        let to = if count - from > PIXELS_PER_LINE {
            from + PIXELS_PER_LINE
        } else {
            count
        };
        let ghost before = ppm@;
        let ghost rest = canvas.pixels@.skip(from as int);
        let ghost line = canvas.pixels@.subrange(from as int, to as int);
        push_line(&mut ppm, &canvas.pixels, from, to);
        ppm.append("\n");
        proof {
            let tail = canvas.pixels@.skip(to as int);
            reveal_strlit("\n");
            assert(ppm@ == before + line_text(line) + seq!['\n']);
            assert(rest.len() == count - from);
            if rest.len() <= PIXELS_PER_LINE {
                assert(line =~= rest);
                assert(tail.len() == 0);
                assert(body_text(tail) =~= Seq::<char>::empty());
                assert(body_text(rest) == line_text(rest) + seq!['\n']);
            } else {
                assert(line =~= rest.take(PIXELS_PER_LINE as int));
                assert(tail =~= rest.skip(PIXELS_PER_LINE as int));
                assert(body_text(rest) == line_text(line) + seq!['\n'] + body_text(tail));
            }
            assert(ppm@ + body_text(tail) =~= before + body_text(rest));
        }
        from = to;
    }
    assert(canvas.pixels@.skip(from as int).len() == 0);
    assert(ppm@ =~= ppm@ + body_text(canvas.pixels@.skip(from as int)));
    ppm
}

} // verus!
