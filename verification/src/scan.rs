//! Walking the pixels of a rectangle and collecting those that a shape
//! covers.

use crate::canvas::{canvas, Canvas};
use crate::vec::Vec2i;
use tgaimage::TGAImage;
use vstd::arithmetic::div_mod::{
    lemma_div_pos_is_pos, lemma_fundamental_div_mod, lemma_fundamental_div_mod_converse,
    lemma_mod_bound, lemma_multiply_divide_lt,
};
use vstd::math::min;
use vstd::prelude::*;

verus! {

/// Whether the pixel `(x, y)` lies in the rectangle from `low` to `high`,
/// both corners included.
pub open spec fn in_rect(low: Vec2i, high: Vec2i, x: int, y: int) -> bool {
    low.x <= x <= high.x && low.y <= y <= high.y
}

/// The last pixel of a canvas, the corner opposite to `(0, 0)`. A side
/// longer than an `i32` can address counts up to the last pixel that one
/// can.
pub open spec fn frame_corner(c: Canvas) -> Vec2i {
    Vec2i {
        x: (min(c.width as int, 0x8000_0000) - 1) as i32,
        y: (min(c.height as int, 0x8000_0000) - 1) as i32,
    }
}

/// Computes the last pixel of an image.
pub(crate) fn corner_of(image: &TGAImage) -> (corner: Vec2i)
    ensures
        corner == frame_corner(canvas(*image)),
{
    let width = image.width();
    let height = image.height();
    let x: i32 = if width > 0x7fff_ffff { 0x7fff_ffff } else { width as i32 - 1 };
    let y: i32 = if height > 0x7fff_ffff { 0x7fff_ffff } else { height as i32 - 1 };
    Vec2i::new(x, y)
}

/// The pixels of the rectangle from `low` to `high`, in the order in which
/// a shape is filled: column by column, each column from its lowest row up.
pub open spec fn box_pixels(low: Vec2i, high: Vec2i) -> Seq<(i32, i32)> {
    if low.x <= high.x && low.y <= high.y {
        let rows = high.y - low.y + 1;
        Seq::new(
            ((high.x - low.x + 1) * rows) as nat,
            |k: int| ((low.x + k / rows) as i32, (low.y + k % rows) as i32),
        )
    } else {
        Seq::empty()
    }
}

/// A pixel that a shape covers, with what the shape's geometry says of it.
pub struct Hit<T> {
    pub x: i32,
    pub y: i32,
    pub value: T,
}

/// The covered pixels among `pixels`, in order: `answers[k]` is what the
/// geometry said of `pixels[k]`, `None` where the shape does not cover it.
pub open spec fn hits<T>(pixels: Seq<(i32, i32)>, answers: Seq<Option<T>>) -> Seq<Hit<T>>
    decreases answers.len(),
{
    if answers.len() == 0 {
        Seq::empty()
    } else {
        let rest = hits(pixels, answers.drop_last());
        match answers.last() {
            Some(value) => rest.push(
                Hit { x: pixels[answers.len() - 1].0, y: pixels[answers.len() - 1].1, value },
            ),
            None => rest,
        }
    }
}

/// Whether `answers` is a record of one call of `at` for each of `pixels`.
pub open spec fn answered<T, F: Fn(i32, i32) -> Option<T>>(
    at: F,
    pixels: Seq<(i32, i32)>,
    answers: Seq<Option<T>>,
) -> bool {
    &&& answers.len() == pixels.len()
    &&& forall|k: int|
        0 <= k < pixels.len() ==> call_ensures(at, pixels[k], #[trigger] answers[k])
}

/// The place of the pixel `(x, y)` among the pixels of a rectangle.
proof fn lemma_pixel_index(low: Vec2i, high: Vec2i, x: int, y: int)
    requires
        in_rect(low, high, x, y),
    ensures
        0 <= (x - low.x) * (high.y - low.y + 1) + (y - low.y) < box_pixels(low, high).len(),
        box_pixels(low, high)[(x - low.x) * (high.y - low.y + 1) + (y - low.y)] == (
            x as i32,
            y as i32,
        ),
{
    let rows = high.y - low.y + 1;
    let cols = high.x - low.x + 1;
    let k = (x - low.x) * rows + (y - low.y);
    assert(0 <= (x - low.x) * rows && (x - low.x + 1) * rows <= cols * rows) by (nonlinear_arith)
        requires
            0 <= x - low.x < cols,
            0 < rows,
    ;
    assert((x - low.x + 1) * rows == (x - low.x) * rows + rows) by (nonlinear_arith);
    lemma_fundamental_div_mod_converse(k, rows, x - low.x, y - low.y);
}

/// The pixels of a rectangle are all different.
pub proof fn lemma_box_pixels_distinct(low: Vec2i, high: Vec2i, j: int, k: int)
    requires
        0 <= j < box_pixels(low, high).len(),
        0 <= k < box_pixels(low, high).len(),
        j != k,
    ensures
        box_pixels(low, high)[j] != box_pixels(low, high)[k],
{
    let rows = high.y - low.y + 1;
    let cols = high.x - low.x + 1;
    assert(cols * rows == rows * cols) by (nonlinear_arith);
    lemma_fundamental_div_mod(j, rows);
    lemma_fundamental_div_mod(k, rows);
    lemma_mod_bound(j, rows);
    lemma_mod_bound(k, rows);
    lemma_div_pos_is_pos(j, rows);
    lemma_div_pos_is_pos(k, rows);
    lemma_multiply_divide_lt(j, rows, cols);
    lemma_multiply_divide_lt(k, rows, cols);
}

/// No two covered pixels of a rectangle are the same pixel: each pixel is
/// asked about once.
pub proof fn lemma_hits_apart<T>(low: Vec2i, high: Vec2i, answers: Seq<Option<T>>, i: int, j: int)
    requires
        answers.len() <= box_pixels(low, high).len(),
        0 <= i < hits(box_pixels(low, high), answers).len(),
        0 <= j < hits(box_pixels(low, high), answers).len(),
        i != j,
    ensures
        ({
            let found = hits(box_pixels(low, high), answers);
            found[i].x != found[j].x || found[i].y != found[j].y
        }),
{
    let pixels = box_pixels(low, high);
    lemma_hit_origin(pixels, answers, i);
    lemma_hit_origin(pixels, answers, j);
    lemma_hit_origins_differ(pixels, answers, i, j);
    lemma_box_pixels_distinct(low, high, hit_origin(answers, i), hit_origin(answers, j));
}

/// The number of covered pixels among those asked about.
spec fn hit_count<T>(answers: Seq<Option<T>>) -> int
    decreases answers.len(),
{
    if answers.len() == 0 {
        0
    } else if answers.last() is Some {
        hit_count(answers.drop_last()) + 1
    } else {
        hit_count(answers.drop_last())
    }
}

/// The place that the `i`-th covered pixel has among the pixels asked
/// about.
spec fn hit_origin<T>(answers: Seq<Option<T>>, i: int) -> int
    decreases answers.len(),
{
    if answers.len() == 0 {
        0
    } else if answers.last() is Some && i == hit_count(answers.drop_last()) {
        answers.len() - 1
    } else {
        hit_origin(answers.drop_last(), i)
    }
}

/// There are as many covered pixels as answers that are not `None`.
proof fn lemma_hit_count<T>(pixels: Seq<(i32, i32)>, answers: Seq<Option<T>>)
    ensures
        hits(pixels, answers).len() == hit_count(answers),
    decreases answers.len(),
{
    if answers.len() > 0 {
        lemma_hit_count(pixels, answers.drop_last());
    }
}

/// A covered pixel is the pixel at its place of origin, and holds what was
/// answered there.
proof fn lemma_hit_origin<T>(pixels: Seq<(i32, i32)>, answers: Seq<Option<T>>, i: int)
    requires
        0 <= i < hits(pixels, answers).len(),
    ensures
        0 <= hit_origin(answers, i) < answers.len(),
        answers[hit_origin(answers, i)] == Some(hits(pixels, answers)[i].value),
        pixels[hit_origin(answers, i)] == (hits(pixels, answers)[i].x, hits(pixels, answers)[i].y),
    decreases answers.len(),
{
    lemma_hit_count(pixels, answers.drop_last());
    if !(answers.last() is Some && i == hit_count(answers.drop_last())) {
        lemma_hit_origin(pixels, answers.drop_last(), i);
    }
}

/// Two covered pixels have different places of origin.
proof fn lemma_hit_origins_differ<T>(
    pixels: Seq<(i32, i32)>,
    answers: Seq<Option<T>>,
    i: int,
    j: int,
)
    requires
        0 <= i < hits(pixels, answers).len(),
        0 <= j < hits(pixels, answers).len(),
        i != j,
    ensures
        hit_origin(answers, i) != hit_origin(answers, j),
    decreases answers.len(),
{
    lemma_hit_count(pixels, answers.drop_last());
    let newest = answers.last() is Some;
    let count = hit_count(answers.drop_last());
    if newest && i == count {
        lemma_hit_origin(pixels, answers.drop_last(), j);
    } else if newest && j == count {
        lemma_hit_origin(pixels, answers.drop_last(), i);
    } else {
        lemma_hit_origins_differ(pixels, answers.drop_last(), i, j);
    }
}

/// Asks `at` about each pixel of the rectangle, in filling order, and
/// returns the covered ones.
pub(crate) fn covered<T, F: Fn(i32, i32) -> Option<T>>(
    low: Vec2i,
    high: Vec2i,
    at: F,
) -> (found: (
    Vec<Hit<T>>,
    Ghost<Seq<Option<T>>>,
))
    requires
        forall|x: i32, y: i32| in_rect(low, high, x as int, y as int) ==> call_requires(at, (x, y)),
    ensures
        answered(at, box_pixels(low, high), found.1@),
        found.0@ == hits(box_pixels(low, high), found.1@),
        forall|i: int|
            0 <= i < found.0@.len() ==> {
                &&& in_rect(low, high, (#[trigger] found.0@[i]).x as int, found.0@[i].y as int)
                &&& call_ensures(at, (found.0@[i].x, found.0@[i].y), Some(found.0@[i].value))
            },
{
    let mut out: Vec<Hit<T>> = Vec::new();
    let ghost mut answers: Seq<Option<T>> = Seq::empty();
    if low.x > high.x || low.y > high.y {
        return (out, Ghost(answers));
    }
    let ghost pixels = box_pixels(low, high);
    let ghost rows = high.y - low.y + 1;
    let mut x: i64 = low.x as i64;
    while x <= high.x as i64
        invariant
            low.x <= high.x,
            low.y <= high.y,
            low.x <= x <= high.x + 1,
            pixels == box_pixels(low, high),
            rows == high.y - low.y + 1,
            forall|x: i32, y: i32|
                in_rect(low, high, x as int, y as int) ==> call_requires(at, (x, y)),
            answers.len() == (x - low.x) * rows,
            answers.len() <= pixels.len(),
            forall|k: int|
                0 <= k < answers.len() ==> call_ensures(at, pixels[k], #[trigger] answers[k]),
            out@ == hits(pixels, answers),
            forall|i: int|
                0 <= i < out@.len() ==> {
                    &&& in_rect(low, high, (#[trigger] out@[i]).x as int, out@[i].y as int)
                    &&& call_ensures(at, (out@[i].x, out@[i].y), Some(out@[i].value))
                },
        decreases high.x + 1 - x,
    {
        let mut y: i64 = low.y as i64;
        while y <= high.y as i64
            invariant
                low.x <= high.x,
                low.y <= high.y,
                low.x <= x <= high.x,
                low.y <= y <= high.y + 1,
                pixels == box_pixels(low, high),
                rows == high.y - low.y + 1,
                forall|x: i32, y: i32|
                    in_rect(low, high, x as int, y as int) ==> call_requires(at, (x, y)),
                answers.len() == (x - low.x) * rows + (y - low.y),
                answers.len() <= pixels.len(),
                forall|k: int|
                    0 <= k < answers.len() ==> call_ensures(at, pixels[k], #[trigger] answers[k]),
                out@ == hits(pixels, answers),
                forall|i: int|
                    0 <= i < out@.len() ==> {
                        &&& in_rect(low, high, (#[trigger] out@[i]).x as int, out@[i].y as int)
                        &&& call_ensures(at, (out@[i].x, out@[i].y), Some(out@[i].value))
                    },
            decreases high.y + 1 - y,
        {
            proof {
                lemma_pixel_index(low, high, x as int, y as int);
            }
            let px: i32 = x as i32;
            let py: i32 = y as i32;
            assert(in_rect(low, high, px as int, py as int));
            assert(call_requires(at, (px, py)));
            let answer = at(px, py);
            let ghost before = answers;
            proof {
                answers = answers.push(answer);
                assert(answers.drop_last() =~= before);
            }
            if let Some(value) = answer {
                out.push(Hit { x: px, y: py, value });
            }
            y += 1;
        }
        proof {
            assert((x + 1 - low.x) * rows == (x - low.x) * rows + rows) by (nonlinear_arith);
            if x < high.x {
                lemma_pixel_index(low, high, x + 1, low.y as int);
            } else {
                assert(answers.len() == pixels.len());
            }
        }
        x += 1;
    }
    (out, Ghost(answers))
}

} // verus!
