//! Drawing: line segments and depth-tested triangles.

use crate::canvas::{
    canvas, image_channels, image_height, image_width, set_pixel, Canvas, Color,
};
use crate::scan::{
    answered, box_pixels, corner_of, covered, frame_corner, hits, in_rect, lemma_hits_apart, Hit,
};
use crate::surface::{alone_at_pixel, plot, surface, Fragment, Sample, Surface};
use crate::vec::Vec2i;
use tgaimage::TGAImage;
use vstd::arithmetic::div_mod::{
    lemma_div_is_ordered, lemma_div_plus_one, lemma_fundamental_div_mod_converse,
};
use vstd::math::{max, min};
use vstd::prelude::*;

verus! {

/// The absolute value of an integer.
pub open spec fn magnitude(v: int) -> int {
    if v < 0 {
        -v
    } else {
        v
    }
}

/// Whether a segment rises faster than it runs, so that it is walked along
/// `y` instead of `x`.
pub open spec fn is_steep(x0: int, y0: int, x1: int, y1: int) -> bool {
    magnitude(x0 - x1) < magnitude(y0 - y1)
}

/// The segment as it is walked: `(a0, b0, a1, b1)`, where `a` is the
/// coordinate along the major axis, `b` the one along the minor axis, and the
/// endpoints are ordered so that `a0 <= a1`.
pub open spec fn walk(x0: int, y0: int, x1: int, y1: int) -> (int, int, int, int) {
    let (a0, b0, a1, b1) = if is_steep(x0, y0, x1, y1) {
        (y0, x0, y1, x1)
    } else {
        (x0, y0, x1, y1)
    };
    if a0 > a1 {
        (a1, b1, a0, b0)
    } else {
        (a0, b0, a1, b1)
    }
}

/// The minor coordinate at step `k` of a walk of `len` steps from `b0`
/// towards `b1`: the ideal offset `k * |b1 - b0| / len` rounded to the nearest
/// integer, a tie going to the smaller offset.
pub open spec fn minor_at(b0: int, b1: int, len: int, k: int) -> int {
    let n = (2 * magnitude(b1 - b0) * k + len - 1) / (2 * len);
    if b1 > b0 {
        b0 + n
    } else {
        b0 - n
    }
}

/// The `k`-th pixel of the segment from `(x0, y0)` to `(x1, y1)`.
pub open spec fn line_point(x0: int, y0: int, x1: int, y1: int, k: int) -> (int, int) {
    let (a0, b0, a1, b1) = walk(x0, y0, x1, y1);
    let a = a0 + k;
    let b = minor_at(b0, b1, a1 - a0, k);
    if is_steep(x0, y0, x1, y1) {
        (b, a)
    } else {
        (a, b)
    }
}

/// The pixels of the segment from `(x0, y0)` to `(x1, y1)`, in drawing
/// order: one for each step along the major axis, the last step excluded.
pub open spec fn line_points(x0: int, y0: int, x1: int, y1: int) -> Seq<(int, int)> {
    let (a0, b0, a1, b1) = walk(x0, y0, x1, y1);
    Seq::new((a1 - a0) as nat, |k: int| line_point(x0, y0, x1, y1, k))
}

/// A segment has the same pixels, in the same order, whichever of its
/// endpoints is given first; so the set of pixels drawn is the same too.
pub proof fn lemma_line_symmetric(x0: int, y0: int, x1: int, y1: int)
    ensures
        line_points(x0, y0, x1, y1) == line_points(x1, y1, x0, y0),
        line_points(x0, y0, x1, y1).to_set() == line_points(x1, y1, x0, y0).to_set(),
{
    assert(walk(x0, y0, x1, y1) == walk(x1, y1, x0, y0));
    assert(line_points(x0, y0, x1, y1) =~= line_points(x1, y1, x0, y0));
}

/// A segment starts at the one of its endpoints that comes first along the
/// major axis.
pub proof fn lemma_line_start(x0: int, y0: int, x1: int, y1: int)
    requires
        line_points(x0, y0, x1, y1).len() > 0,
    ensures
        ({
            let (a0, b0, a1, b1) = walk(x0, y0, x1, y1);
            line_points(x0, y0, x1, y1)[0] == if is_steep(x0, y0, x1, y1) {
                (b0, a0)
            } else {
                (a0, b0)
            }
        }),
{
    let (a0, b0, a1, b1) = walk(x0, y0, x1, y1);
    lemma_steps(magnitude(b1 - b0), a1 - a0, 0, 0, 0);
}

/// Consecutive pixels of a segment touch: from one to the next, the major
/// coordinate grows by one and the minor coordinate moves by at most one,
/// towards the far endpoint.
pub proof fn lemma_line_connected(x0: int, y0: int, x1: int, y1: int, k: int)
    requires
        0 <= k,
        k + 1 < line_points(x0, y0, x1, y1).len(),
    ensures
        ({
            let (a0, b0, a1, b1) = walk(x0, y0, x1, y1);
            let p = line_points(x0, y0, x1, y1)[k];
            let q = line_points(x0, y0, x1, y1)[k + 1];
            let (pa, pb) = if is_steep(x0, y0, x1, y1) { (p.1, p.0) } else { (p.0, p.1) };
            let (qa, qb) = if is_steep(x0, y0, x1, y1) { (q.1, q.0) } else { (q.0, q.1) };
            &&& qa == pa + 1
            &&& if b1 > b0 { pb <= qb <= pb + 1 } else { pb - 1 <= qb <= pb }
        }),
{
    let (a0, b0, a1, b1) = walk(x0, y0, x1, y1);
    let len = a1 - a0;
    let rise = magnitude(b1 - b0);
    let at = 2 * rise * k + len - 1;
    assert(2 * rise * (k + 1) + len - 1 == at + 2 * rise) by (nonlinear_arith)
        requires
            at == 2 * rise * k + len - 1,
    ;
    lemma_div_is_ordered(at, at + 2 * rise, 2 * len);
    lemma_div_is_ordered(at + 2 * rise, 2 * len + at, 2 * len);
    lemma_div_plus_one(at, 2 * len);
}

/// The error term pins the number of steps taken along the minor axis:
/// with the error `e` left after `k` steps in the half-open range around
/// zero, `n` is the rounded quotient.
proof fn lemma_steps(rise: int, len: int, k: int, n: int, e: int)
    requires
        len > 0,
        e == 2 * rise * k - 2 * len * n,
        -len < e <= len,
    ensures
        n == (2 * rise * k + len - 1) / (2 * len),
{
    assert(2 * rise * k + len - 1 == n * (2 * len) + (e + len - 1)) by (nonlinear_arith)
        requires
            e == 2 * rise * k - 2 * len * n,
    ;
    lemma_fundamental_div_mod_converse(2 * rise * k + len - 1, 2 * len, n, e + len - 1);
}

/// One more step along the major axis keeps the error term in its range
/// and the number of minor steps at the rounded quotient.
proof fn lemma_advance(rise: int, len: int, k: int, n: int, e: int, n2: int, e2: int)
    requires
        0 <= rise <= len,
        0 <= k < len,
        e == 2 * rise * k - 2 * len * n,
        -len < e <= len,
        e + 2 * rise > len ==> n2 == n + 1 && e2 == e + 2 * rise - 2 * len,
        e + 2 * rise <= len ==> n2 == n && e2 == e + 2 * rise,
    ensures
        e2 == 2 * rise * (k + 1) - 2 * len * n2,
        -len < e2 <= len,
        n2 <= rise,
        n2 == (2 * rise * (k + 1) + len - 1) / (2 * len),
{
    assert(2 * rise * (k + 1) == 2 * rise * k + 2 * rise) by (nonlinear_arith);
    assert(2 * len * (n + 1) == 2 * len * n + 2 * len) by (nonlinear_arith);
    assert(n2 <= rise) by (nonlinear_arith)
        requires
            e2 == 2 * rise * (k + 1) - 2 * len * n2,
            -len < e2,
            0 <= rise,
            0 <= k < len,
    ;
    lemma_steps(rise, len, k + 1, n2, e2);
}

/// Draws the segment from `(x0, y0)` to `(x1, y1)` in `color`. Pixels of
/// the segment that the image does not accept are left out.
pub fn line(x0: i32, y0: i32, x1: i32, y1: i32, image: &mut TGAImage, color: &Color)
    ensures
        canvas(*final(image)) == canvas(*old(image)).paint(
            line_points(x0 as int, y0 as int, x1 as int, y1 as int).to_set(),
            *color,
        ),
{
    let mut a0: i64 = x0 as i64;
    let mut b0: i64 = y0 as i64;
    let mut a1: i64 = x1 as i64;
    let mut b1: i64 = y1 as i64;
    let run: i64 = if a0 < a1 { a1 - a0 } else { a0 - a1 };
    let rise: i64 = if b0 < b1 { b1 - b0 } else { b0 - b1 };
    let steep = run < rise;
    if steep {
        a0 = y0 as i64;
        b0 = x0 as i64;
        a1 = y1 as i64;
        b1 = x1 as i64;
    }
    if a0 > a1 {
        let (a, b) = (a0, b0);
        a0 = a1;
        b0 = b1;
        a1 = a;
        b1 = b;
    }
    let len: i64 = a1 - a0;
    let rise2: i64 = 2 * (if b0 < b1 { b1 - b0 } else { b0 - b1 });
    let up = b1 > b0;
    let mut error2: i64 = 0;
    let mut b: i64 = b0;
    let mut a: i64 = a0;
    let ghost points = line_points(x0 as int, y0 as int, x1 as int, y1 as int);
    let ghost start = canvas(*image);
    let ghost mut n: int = 0;
    proof {
        start.lemma_paint_empty(*color);
        assert(points.take(0).to_set() =~= Set::empty());
        if a0 < a1 {
            lemma_steps(magnitude(b1 - b0), len as int, 0, 0, 0);
        }
    }
    while a < a1
        invariant
            (a0 as int, b0 as int, a1 as int, b1 as int) == walk(
                x0 as int,
                y0 as int,
                x1 as int,
                y1 as int,
            ),
            steep == is_steep(x0 as int, y0 as int, x1 as int, y1 as int),
            points == line_points(x0 as int, y0 as int, x1 as int, y1 as int),
            len == a1 - a0,
            rise2 == 2 * magnitude(b1 - b0),
            rise2 <= 2 * len,
            up == (b1 > b0),
            a0 <= a <= a1,
            i32::MIN <= a0,
            a1 <= i32::MAX,
            i32::MIN <= b0 <= i32::MAX,
            i32::MIN <= b1 <= i32::MAX,
            0 <= n <= magnitude(b1 - b0),
            b == if up { b0 + n } else { b0 - n },
            error2 == rise2 * (a - a0) - 2 * len * n,
            len > 0 ==> -len < error2 <= len,
            a < a1 ==> b == minor_at(b0 as int, b1 as int, len as int, a - a0),
            canvas(*image) == start.paint(points.take(a - a0).to_set(), *color),
        decreases a1 - a,
    {
        let ghost k = a - a0;
        let (x, y) = if steep { (b, a) } else { (a, b) };
        assert((x as int, y as int) == points[k]);
        if x >= 0 && y >= 0 {
            set_pixel(image, x as usize, y as usize, color);
        }
        proof {
            start.lemma_paint_insert(points.take(k).to_set(), x as int, y as int, *color);
            assert(points.take(k + 1).to_set() =~= points.take(k).to_set().insert(points[k])) by {
                assert(points.take(k + 1) =~= points.take(k).push(points[k]));
                points.take(k).lemma_push_to_set_commute(points[k]);
            }
        }
        let ghost before = (error2, n);
        error2 += rise2;
        if error2 > len {
            b += if up { 1 } else { -1 };
            error2 -= 2 * len;
            proof {
                n = n + 1;
            }
        }
        a += 1;
        proof {
            lemma_advance(
                magnitude(b1 - b0),
                len as int,
                k,
                before.1,
                before.0 as int,
                n,
                error2 as int,
            );
        }
    }
    assert(points.take(a - a0) =~= points);
}

/// The least of three integers.
pub open spec fn min3(a: int, b: int, c: int) -> int {
    min(a, min(b, c))
}

/// The greatest of three integers.
pub open spec fn max3(a: int, b: int, c: int) -> int {
    max(a, max(b, c))
}

/// The pixel rectangle `(low, high)` that encloses the triangle `t0 t1 t2`,
/// cut down to the frame from `(0, 0)` to `clamp`. The two axes are bounded
/// independently of each other.
pub open spec fn enclosing_box(t0: Vec2i, t1: Vec2i, t2: Vec2i, clamp: Vec2i) -> (Vec2i, Vec2i) {
    (
        Vec2i {
            x: max(0, min3(t0.x as int, t1.x as int, t2.x as int)) as i32,
            y: max(0, min3(t0.y as int, t1.y as int, t2.y as int)) as i32,
        },
        Vec2i {
            x: min(clamp.x as int, max3(t0.x as int, t1.x as int, t2.x as int)) as i32,
            y: min(clamp.y as int, max3(t0.y as int, t1.y as int, t2.y as int)) as i32,
        },
    )
}

/// Computes the pixel rectangle that encloses a triangle, cut down to the
/// frame. Every pixel from `low` to `high` lies in the frame; where the
/// triangle lies wholly outside it, the rectangle is empty.
pub fn bounding_box(t0: Vec2i, t1: Vec2i, t2: Vec2i, clamp: Vec2i) -> (bbox: (Vec2i, Vec2i))
    ensures
        bbox == enclosing_box(t0, t1, t2, clamp),
        forall|x: int, y: int| #[trigger]
            in_rect(bbox.0, bbox.1, x, y) ==> 0 <= x <= clamp.x && 0 <= y <= clamp.y,
{
    let mut t0 = t0;
    let mut t1 = t1;
    let mut t2 = t2;
    if t0.x > t1.x {
        core::mem::swap(&mut t0, &mut t1);
    }
    if t0.x > t2.x {
        core::mem::swap(&mut t0, &mut t2);
    }
    if t1.x > t2.x {
        core::mem::swap(&mut t1, &mut t2);
    }
    let min_x: i32 = if t0.x < 0 { 0 } else { t0.x };
    let max_x: i32 = if t2.x > clamp.x { clamp.x } else { t2.x };
    if t0.y > t1.y {
        core::mem::swap(&mut t0, &mut t1);
    }
    if t0.y > t2.y {
        core::mem::swap(&mut t0, &mut t2);
    }
    if t1.y > t2.y {
        core::mem::swap(&mut t1, &mut t2);
    }
    let min_y: i32 = if t0.y < 0 { 0 } else { t0.y };
    let max_y: i32 = if t2.y > clamp.y { clamp.y } else { t2.y };
    (Vec2i::new(min_x, min_y), Vec2i::new(max_x, max_y))
}

/// The fragments of a shape of one colour: each covered pixel with its
/// depth.
pub open spec fn flat_fragments(found: Seq<Hit<i32>>, color: Color) -> Seq<Fragment> {
    Seq::new(
        found.len(),
        |i: int| Fragment { x: found[i].x, y: found[i].y, depth: found[i].value, color },
    )
}

/// The fragments of a textured shape: each covered pixel with its depth
/// and the colour of its texel, scaled by the light levels.
pub open spec fn textured_fragments(
    found: Seq<Hit<Sample>>,
    texture: Canvas,
    levels: Seq<u8>,
) -> Seq<Fragment> {
    Seq::new(found.len(), |i: int| found[i].value.shaded(found[i].x, found[i].y, texture, levels))
}

/// Fills the triangle with corners `t` in one colour. `depth_at` says of a
/// pixel whether the triangle covers it and, where it does, at what depth;
/// it is asked once about each pixel of the triangle's rectangle inside the
/// image. The covered pixels go through the depth test in the order in which
/// they were asked about.
pub fn triangle<F: Fn(i32, i32) -> Option<i32>>(
    t: [Vec2i; 3],
    depth_at: F,
    z_buffer: &mut [i32],
    image: &mut TGAImage,
    color: &Color,
)
    requires
        old(z_buffer)@.len() == image_width(*old(image)) * image_height(*old(image)),
        forall|x: i32, y: i32|
            canvas(*old(image)).contains(x as int, y as int) ==> call_requires(depth_at, (x, y)),
    ensures
        exists|answers: Seq<Option<i32>>| #[trigger]
            triangle_drawn(
                surface(*old(image), old(z_buffer)@),
                surface(*final(image), final(z_buffer)@),
                t,
                depth_at,
                *color,
                answers,
            ),
        surface(*final(image), final(z_buffer)@).same_shape(
            surface(*old(image), old(z_buffer)@),
        ),
{
    let ghost start = surface(*image, z_buffer@);
    let corner = corner_of(image);
    let (low, high) = bounding_box(t[0], t[1], t[2], corner);
    assert forall|x: i32, y: i32| in_rect(low, high, x as int, y as int) implies call_requires(
        depth_at,
        (x, y),
    ) by {
        assert(start.canvas.contains(x as int, y as int));
    }
    let (found, Ghost(answers)) = covered(low, high, depth_at);
    let ghost frags = flat_fragments(found@, *color);
    let mut i: usize = 0;
    while i < found.len()
        invariant
            i <= found@.len(),
            start.wf(),
            frags == flat_fragments(found@, *color),
            surface(*image, z_buffer@).same_shape(start),
            surface(*image, z_buffer@) == start.fill(frags.take(i as int)),
        decreases found@.len() - i,
    {
        let hit = &found[i];
        let frag = Fragment { x: hit.x, y: hit.y, depth: hit.value, color: *color };
        plot(&frag, z_buffer, image);
        proof {
            assert(frags.take(i + 1).drop_last() =~= frags.take(i as int));
        }
        i += 1;
    }
    proof {
        assert(frags.take(i as int) =~= frags);
        assert(triangle_drawn(start, surface(*image, z_buffer@), t, depth_at, *color, answers));
    }
}

/// What `triangle` leaves behind, given what `depth_at` answered for each
/// pixel of the triangle's rectangle: the surface filled with the covered
/// pixels, in order.
pub open spec fn triangle_drawn<F: Fn(i32, i32) -> Option<i32>>(
    before: Surface,
    after: Surface,
    t: [Vec2i; 3],
    depth_at: F,
    color: Color,
    answers: Seq<Option<i32>>,
) -> bool {
    let (low, high) = enclosing_box(t[0], t[1], t[2], frame_corner(before.canvas));
    &&& answered(depth_at, box_pixels(low, high), answers)
    &&& after == before.fill(flat_fragments(hits(box_pixels(low, high), answers), color))
}

/// Fills the triangle with corners `t` from a texture. `sample_at` says of
/// a pixel whether the triangle covers it and, where it does, at what depth
/// and with which texel; it is asked once about each pixel of the triangle's
/// rectangle inside the image. Each covered pixel takes the colour of its
/// texel, scaled by the light levels, and goes through the depth test, in the
/// order in which the pixels were asked about.
pub fn triangle_texture<F: Fn(i32, i32) -> Option<Sample>>(
    t: [Vec2i; 3],
    sample_at: F,
    z_buffer: &mut [i32],
    image: &mut TGAImage,
    texture: &TGAImage,
    levels: &[u8; 256],
)
    requires
        old(z_buffer)@.len() == image_width(*old(image)) * image_height(*old(image)),
        forall|x: i32, y: i32|
            canvas(*old(image)).contains(x as int, y as int) ==> call_requires(sample_at, (x, y)),
        forall|x: i32, y: i32, s: Sample| #[trigger]
            call_ensures(sample_at, (x, y), Some(s)) ==> {
                &&& s.in_texture(canvas(*texture))
                &&& (image_channels(*texture) == 3 || image_channels(*texture) == 4)
            },
    ensures
        exists|answers: Seq<Option<Sample>>| #[trigger]
            texture_drawn(
                surface(*old(image), old(z_buffer)@),
                surface(*final(image), final(z_buffer)@),
                t,
                sample_at,
                canvas(*texture),
                levels@,
                answers,
            ),
        surface(*final(image), final(z_buffer)@).same_shape(
            surface(*old(image), old(z_buffer)@),
        ),
{
    let ghost start = surface(*image, z_buffer@);
    let corner = corner_of(image);
    let (low, high) = bounding_box(t[0], t[1], t[2], corner);
    assert forall|x: i32, y: i32| in_rect(low, high, x as int, y as int) implies call_requires(
        sample_at,
        (x, y),
    ) by {
        assert(start.canvas.contains(x as int, y as int));
    }
    let (found, Ghost(answers)) = covered(low, high, sample_at);
    let ghost frags = textured_fragments(found@, canvas(*texture), levels@);
    let mut i: usize = 0;
    while i < found.len()
        invariant
            i <= found@.len(),
            start.wf(),
            forall|i: int|
                0 <= i < found@.len() ==> {
                    &&& (#[trigger] found@[i]).value.in_texture(canvas(*texture))
                    &&& (image_channels(*texture) == 3 || image_channels(*texture) == 4)
                },
            frags == textured_fragments(found@, canvas(*texture), levels@),
            surface(*image, z_buffer@).same_shape(start),
            surface(*image, z_buffer@) == start.fill(frags.take(i as int)),
        decreases found@.len() - i,
    {
        let hit = &found[i];
        let frag = hit.value.shade(hit.x, hit.y, texture, levels);
        plot(&frag, z_buffer, image);
        proof {
            assert(frags.take(i + 1).drop_last() =~= frags.take(i as int));
        }
        i += 1;
    }
    proof {
        assert(frags.take(i as int) =~= frags);
        assert(texture_drawn(
            start,
            surface(*image, z_buffer@),
            t,
            sample_at,
            canvas(*texture),
            levels@,
            answers,
        ));
    }
}

/// What `triangle_texture` leaves behind, given what `sample_at` answered
/// for each pixel of the triangle's rectangle: the surface filled with the
/// covered pixels, in order, each in the colour of its texel.
pub open spec fn texture_drawn<F: Fn(i32, i32) -> Option<Sample>>(
    before: Surface,
    after: Surface,
    t: [Vec2i; 3],
    sample_at: F,
    texture: Canvas,
    levels: Seq<u8>,
    answers: Seq<Option<Sample>>,
) -> bool {
    let (low, high) = enclosing_box(t[0], t[1], t[2], frame_corner(before.canvas));
    &&& answered(sample_at, box_pixels(low, high), answers)
    &&& after == before.fill(
        textured_fragments(hits(box_pixels(low, high), answers), texture, levels),
    )
}

/// The fragments of a triangle of one colour cover each pixel at most
/// once.
pub proof fn lemma_triangle_covers_once(
    low: Vec2i,
    high: Vec2i,
    answers: Seq<Option<i32>>,
    color: Color,
    i: int,
)
    requires
        answers.len() <= box_pixels(low, high).len(),
        0 <= i < hits(box_pixels(low, high), answers).len(),
    ensures
        alone_at_pixel(flat_fragments(hits(box_pixels(low, high), answers), color), i),
{
    let found = hits(box_pixels(low, high), answers);
    let frags = flat_fragments(found, color);
    assert forall|k: int| 0 <= k < frags.len() && k != i implies !(#[trigger] frags[k]).is_at(
        frags[i].x as int,
        frags[i].y as int,
    ) by {
        lemma_hits_apart(low, high, answers, k, i);
    }
}

/// The fragments of a textured triangle cover each pixel at most once.
pub proof fn lemma_texture_covers_once(
    low: Vec2i,
    high: Vec2i,
    answers: Seq<Option<Sample>>,
    texture: Canvas,
    levels: Seq<u8>,
    i: int,
)
    requires
        answers.len() <= box_pixels(low, high).len(),
        0 <= i < hits(box_pixels(low, high), answers).len(),
    ensures
        alone_at_pixel(
            textured_fragments(hits(box_pixels(low, high), answers), texture, levels),
            i,
        ),
{
    let found = hits(box_pixels(low, high), answers);
    let frags = textured_fragments(found, texture, levels);
    assert forall|k: int| 0 <= k < frags.len() && k != i implies !(#[trigger] frags[k]).is_at(
        frags[i].x as int,
        frags[i].y as int,
    ) by {
        lemma_hits_apart(low, high, answers, k, i);
    }
}

/// Of two triangles that overlap at a pixel, the nearer one shows there,
/// whichever of them is filled first. `near_answers` and `far_answers` are
/// what the geometry of the two triangles said of the pixels of their
/// rectangles; the `i`-th covered pixel of the nearer triangle and the `j`-th
/// of the farther one are the same pixel. The nearer triangle is nearer there
/// than what the pixel held, and its colour is one the canvas stores.
pub proof fn lemma_nearer_triangle_shows(
    s: Surface,
    near_box: (Vec2i, Vec2i),
    near_answers: Seq<Option<i32>>,
    near_color: Color,
    far_box: (Vec2i, Vec2i),
    far_answers: Seq<Option<i32>>,
    far_color: Color,
    i: int,
    j: int,
)
    requires
        s.wf(),
        near_answers.len() <= box_pixels(near_box.0, near_box.1).len(),
        far_answers.len() <= box_pixels(far_box.0, far_box.1).len(),
        0 <= i < hits(box_pixels(near_box.0, near_box.1), near_answers).len(),
        0 <= j < hits(box_pixels(far_box.0, far_box.1), far_answers).len(),
        ({
            let near = hits(box_pixels(near_box.0, near_box.1), near_answers)[i];
            let far = hits(box_pixels(far_box.0, far_box.1), far_answers)[j];
            &&& far.x == near.x
            &&& far.y == near.y
            &&& far.value < near.value
            &&& s.canvas.contains(near.x as int, near.y as int)
            &&& s.depth_at(near.x as int, near.y as int) < near.value
        }),
        near_color.channels() == s.canvas.channels,
    ensures
        ({
            let near = flat_fragments(
                hits(box_pixels(near_box.0, near_box.1), near_answers),
                near_color,
            );
            let far = flat_fragments(
                hits(box_pixels(far_box.0, far_box.1), far_answers),
                far_color,
            );
            let (x, y) = (near[i].x as int, near[i].y as int);
            &&& s.fill(near + far).color_at(x, y) == near_color
            &&& s.fill(far + near).color_at(x, y) == near_color
            &&& s.fill(near + far).depth_at(x, y) == near[i].depth
            &&& s.fill(far + near).depth_at(x, y) == near[i].depth
        }),
{
    let near = flat_fragments(hits(box_pixels(near_box.0, near_box.1), near_answers), near_color);
    let far = flat_fragments(hits(box_pixels(far_box.0, far_box.1), far_answers), far_color);
    lemma_triangle_covers_once(near_box.0, near_box.1, near_answers, near_color, i);
    lemma_triangle_covers_once(far_box.0, far_box.1, far_answers, far_color, j);
    s.lemma_nearer_shows(near, far, i, j);
}

} // verus!
