//! Depth-tested filling: fragments, the depth buffer and the surface they
//! are drawn on.

use crate::canvas::{
    canvas, get_pixel, image_channels, image_height, image_width, set_pixel, Canvas, Color,
};
use tgaimage::TGAImage;
use vstd::prelude::*;

verus! {

/// One candidate pixel of a filled shape: a position, the depth of the
/// shape there (a larger depth is nearer to the viewer) and the colour to
/// show.
#[derive(Debug, Clone, Copy, PartialEq, Eq, Structural)]
pub struct Fragment {
    pub x: i32,
    pub y: i32,
    pub depth: i32,
    pub color: Color,
}

/// A rendering target as a mathematical value: a canvas and, for each of
/// its pixels, the depth of what the pixel shows, row by row.
pub struct Surface {
    pub canvas: Canvas,
    pub depth: Seq<i32>,
}

impl Surface {
    /// The depth buffer has one slot for each pixel of the canvas.
    pub open spec fn wf(self) -> bool {
        self.depth.len() == self.canvas.width * self.canvas.height
    }

    /// The slot of the depth buffer that belongs to the pixel `(x, y)`.
    pub open spec fn slot(self, x: int, y: int) -> int {
        x + y * self.canvas.width
    }

    /// Whether a fragment passes the depth test: it lies inside the canvas
    /// and is strictly nearer than what its pixel shows.
    pub open spec fn shows(self, f: Fragment) -> bool {
        self.canvas.contains(f.x as int, f.y as int) && self.depth[self.slot(
            f.x as int,
            f.y as int,
        )] < f.depth
    }

    /// The surface after one fragment: where it passes the depth test, its
    /// depth is recorded and its colour is written; otherwise nothing changes.
    pub open spec fn plot(self, f: Fragment) -> Surface {
        if self.shows(f) {
            Surface {
                canvas: self.canvas.put(f.x as int, f.y as int, f.color),
                depth: self.depth.update(self.slot(f.x as int, f.y as int), f.depth),
            }
        } else {
            self
        }
    }

    /// The surface after a run of fragments, taken in order.
    pub open spec fn fill(self, frags: Seq<Fragment>) -> Surface
        decreases frags.len(),
    {
        if frags.len() == 0 {
            self
        } else {
            self.fill(frags.drop_last()).plot(frags.last())
        }
    }

    /// Whether two surfaces have the same size and pixel format.
    pub open spec fn same_shape(self, other: Surface) -> bool {
        &&& self.canvas.width == other.canvas.width
        &&& self.canvas.height == other.canvas.height
        &&& self.canvas.channels == other.canvas.channels
        &&& self.depth.len() == other.depth.len()
    }

    /// A fragment never changes the size or the pixel format of a surface.
    pub proof fn lemma_plot_keeps_shape(self, f: Fragment)
        requires
            self.wf(),
        ensures
            self.plot(f).same_shape(self),
            self.plot(f).wf(),
    {
        if self.shows(f) {
            lemma_slot_in_range(
                f.x as int,
                f.y as int,
                self.canvas.width as int,
                self.canvas.height as int,
            );
        }
    }

    /// A run of fragments never changes the size or the pixel format of a
    /// surface.
    pub proof fn lemma_fill_keeps_shape(self, frags: Seq<Fragment>)
        requires
            self.wf(),
        ensures
            self.fill(frags).same_shape(self),
            self.fill(frags).wf(),
        decreases frags.len(),
    {
        if frags.len() > 0 {
            self.lemma_fill_keeps_shape(frags.drop_last());
            self.fill(frags.drop_last()).lemma_plot_keeps_shape(frags.last());
        }
    }
}

impl Fragment {
    /// Whether the fragment belongs to the pixel `(x, y)`.
    pub open spec fn is_at(self, x: int, y: int) -> bool {
        self.x == x && self.y == y
    }
}

/// Whether `frags[i]` is the only fragment of the run at its pixel, as with
/// the fragments of one shape, which covers a pixel at most once.
pub open spec fn alone_at_pixel(frags: Seq<Fragment>, i: int) -> bool {
    forall|k: int|
        0 <= k < frags.len() && k != i ==> !(#[trigger] frags[k]).is_at(
            frags[i].x as int,
            frags[i].y as int,
        )
}

impl Surface {
    /// The depth recorded for the pixel `(x, y)`.
    pub open spec fn depth_at(self, x: int, y: int) -> i32 {
        self.depth[self.slot(x, y)]
    }

    /// The colour that the pixel `(x, y)` shows.
    pub open spec fn color_at(self, x: int, y: int) -> Color {
        self.canvas.pixels[(x, y)]
    }

    /// Once a fragment has gone through the depth test, it no longer passes
    /// it: its pixel is at least as near as the fragment.
    pub proof fn lemma_plot_settles(self, f: Fragment)
        requires
            self.wf(),
        ensures
            !self.plot(f).shows(f),
    {
        if self.shows(f) {
            lemma_slot_in_range(
                f.x as int,
                f.y as int,
                self.canvas.width as int,
                self.canvas.height as int,
            );
        }
    }

    /// A fragment that fails the depth test keeps failing it after any
    /// other fragment: recorded depths only grow.
    pub proof fn lemma_plot_keeps_hidden(self, f: Fragment, g: Fragment)
        requires
            self.wf(),
            !self.shows(g),
        ensures
            !self.plot(f).shows(g),
    {
        if self.shows(f) && self.canvas.contains(g.x as int, g.y as int) {
            lemma_slot_in_range(
                f.x as int,
                f.y as int,
                self.canvas.width as int,
                self.canvas.height as int,
            );
            lemma_slot_in_range(
                g.x as int,
                g.y as int,
                self.canvas.width as int,
                self.canvas.height as int,
            );
        }
    }

    /// After a run of fragments, none of them passes the depth test.
    pub proof fn lemma_fill_settles(self, frags: Seq<Fragment>, i: int)
        requires
            self.wf(),
            0 <= i < frags.len(),
        ensures
            !self.fill(frags).shows(frags[i]),
        decreases frags.len(),
    {
        let before = self.fill(frags.drop_last());
        self.lemma_fill_keeps_shape(frags.drop_last());
        if i == frags.len() - 1 {
            before.lemma_plot_settles(frags.last());
        } else {
            self.lemma_fill_settles(frags.drop_last(), i);
            before.lemma_plot_keeps_hidden(frags.last(), frags[i]);
        }
    }

    /// A run of fragments of which none passes the depth test changes
    /// nothing.
    pub proof fn lemma_fill_hidden(self, frags: Seq<Fragment>)
        requires
            forall|i: int| 0 <= i < frags.len() ==> !self.shows(#[trigger] frags[i]),
        ensures
            self.fill(frags) == self,
        decreases frags.len(),
    {
        if frags.len() > 0 {
            self.lemma_fill_hidden(frags.drop_last());
        }
    }

    /// After a run of fragments, a second run at the same pixels and depths
    /// changes nothing, whatever its colours: equal depths do not overwrite.
    pub proof fn lemma_fill_again(self, frags: Seq<Fragment>, again: Seq<Fragment>)
        requires
            self.wf(),
            again.len() == frags.len(),
            forall|i: int|
                0 <= i < frags.len() ==> {
                    &&& (#[trigger] again[i]).x == frags[i].x
                    &&& again[i].y == frags[i].y
                    &&& again[i].depth == frags[i].depth
                },
        ensures
            self.fill(frags).fill(again) == self.fill(frags),
    {
        let once = self.fill(frags);
        assert forall|i: int| 0 <= i < again.len() implies !once.shows(#[trigger] again[i]) by {
            self.lemma_fill_settles(frags, i);
        }
        once.lemma_fill_hidden(again);
    }

    /// Filling the same run of fragments twice leaves what filling it once
    /// leaves.
    pub proof fn lemma_fill_idempotent(self, frags: Seq<Fragment>)
        requires
            self.wf(),
        ensures
            self.fill(frags).fill(frags) == self.fill(frags),
    {
        self.lemma_fill_again(frags, frags);
    }

    /// Filling two runs one after the other is filling their concatenation.
    pub proof fn lemma_fill_append(self, first: Seq<Fragment>, second: Seq<Fragment>)
        ensures
            self.fill(first + second) == self.fill(first).fill(second),
        decreases second.len(),
    {
        if second.len() == 0 {
            assert(first + second =~= first);
        } else {
            assert((first + second).drop_last() =~= first + second.drop_last());
            self.lemma_fill_append(first, second.drop_last());
        }
    }

    /// A fragment leaves every pixel but its own as it was.
    pub proof fn lemma_plot_elsewhere(self, f: Fragment, x: int, y: int)
        requires
            self.wf(),
            self.canvas.contains(x, y),
            !f.is_at(x, y),
        ensures
            self.plot(f).depth_at(x, y) == self.depth_at(x, y),
            self.plot(f).color_at(x, y) == self.color_at(x, y),
    {
        if self.shows(f) {
            let w = self.canvas.width as int;
            let h = self.canvas.height as int;
            lemma_slot_in_range(f.x as int, f.y as int, w, h);
            lemma_slot_in_range(x, y, w, h);
            if self.slot(f.x as int, f.y as int) == self.slot(x, y) {
                lemma_slot_injective(f.x as int, f.y as int, x, y, w);
            }
        }
    }

    /// A run of fragments leaves every pixel that none of them belongs to
    /// as it was.
    pub proof fn lemma_fill_elsewhere(self, frags: Seq<Fragment>, x: int, y: int)
        requires
            self.wf(),
            self.canvas.contains(x, y),
            forall|i: int| 0 <= i < frags.len() ==> !(#[trigger] frags[i]).is_at(x, y),
        ensures
            self.fill(frags).depth_at(x, y) == self.depth_at(x, y),
            self.fill(frags).color_at(x, y) == self.color_at(x, y),
        decreases frags.len(),
    {
        if frags.len() > 0 {
            let before = self.fill(frags.drop_last());
            self.lemma_fill_elsewhere(frags.drop_last(), x, y);
            self.lemma_fill_keeps_shape(frags.drop_last());
            before.lemma_plot_elsewhere(frags.last(), x, y);
        }
    }

    /// What a fragment does to its own pixel depends only on what that
    /// pixel held.
    pub proof fn lemma_plot_local(self, other: Surface, f: Fragment)
        requires
            self.wf(),
            other.wf(),
            self.same_shape(other),
            self.depth_at(f.x as int, f.y as int) == other.depth_at(f.x as int, f.y as int),
            self.color_at(f.x as int, f.y as int) == other.color_at(f.x as int, f.y as int),
        ensures
            self.plot(f).depth_at(f.x as int, f.y as int) == other.plot(f).depth_at(
                f.x as int,
                f.y as int,
            ),
            self.plot(f).color_at(f.x as int, f.y as int) == other.plot(f).color_at(
                f.x as int,
                f.y as int,
            ),
    {
        if self.shows(f) {
            lemma_slot_in_range(
                f.x as int,
                f.y as int,
                self.canvas.width as int,
                self.canvas.height as int,
            );
        }
    }

    /// Where one fragment of a run is alone at its pixel, the run leaves
    /// that pixel as the one fragment alone would.
    pub proof fn lemma_fill_single(self, frags: Seq<Fragment>, i: int)
        requires
            self.wf(),
            0 <= i < frags.len(),
            self.canvas.contains(frags[i].x as int, frags[i].y as int),
            alone_at_pixel(frags, i),
        ensures
            self.fill(frags).depth_at(frags[i].x as int, frags[i].y as int) == self.plot(
                frags[i],
            ).depth_at(frags[i].x as int, frags[i].y as int),
            self.fill(frags).color_at(frags[i].x as int, frags[i].y as int) == self.plot(
                frags[i],
            ).color_at(frags[i].x as int, frags[i].y as int),
    {
        let f = frags[i];
        let (x, y) = (f.x as int, f.y as int);
        let head = frags.take(i);
        let tail = frags.skip(i + 1);
        assert(frags =~= head.push(f) + tail);
        assert(head.push(f).drop_last() =~= head);
        self.lemma_fill_append(head.push(f), tail);
        let before = self.fill(head);
        self.lemma_fill_keeps_shape(head);
        self.lemma_fill_elsewhere(head, x, y);
        before.lemma_plot_local(self, f);
        before.lemma_plot_keeps_shape(f);
        before.plot(f).lemma_fill_elsewhere(tail, x, y);
    }

    /// Of two shapes that overlap at a pixel, the nearer one shows there,
    /// whichever of them is filled first. `near[i]` and `far[j]` are the
    /// fragments of the two shapes at the pixel; the nearer one is nearer than
    /// what the pixel held, and its colour is one the canvas accepts.
    pub proof fn lemma_nearer_shows(
        self,
        near: Seq<Fragment>,
        far: Seq<Fragment>,
        i: int,
        j: int,
    )
        requires
            self.wf(),
            0 <= i < near.len(),
            0 <= j < far.len(),
            alone_at_pixel(near, i),
            alone_at_pixel(far, j),
            far[j].is_at(near[i].x as int, near[i].y as int),
            far[j].depth < near[i].depth,
            self.shows(near[i]),
            self.canvas.accepts(near[i].x as int, near[i].y as int, near[i].color),
        ensures
            self.fill(near + far).color_at(near[i].x as int, near[i].y as int) == near[i].color,
            self.fill(far + near).color_at(near[i].x as int, near[i].y as int) == near[i].color,
            self.fill(near + far).depth_at(near[i].x as int, near[i].y as int) == near[i].depth,
            self.fill(far + near).depth_at(near[i].x as int, near[i].y as int) == near[i].depth,
    {
        let (x, y) = (near[i].x as int, near[i].y as int);
        lemma_slot_in_range(x, y, self.canvas.width as int, self.canvas.height as int);
        self.lemma_fill_append(near, far);
        self.lemma_fill_append(far, near);
        // the nearer shape first
        let a = self.fill(near);
        self.lemma_fill_keeps_shape(near);
        self.lemma_fill_single(near, i);
        a.lemma_fill_single(far, j);
        // the farther shape first
        let b = self.fill(far);
        self.lemma_fill_keeps_shape(far);
        self.lemma_fill_single(far, j);
        b.lemma_fill_single(near, i);
    }
}

impl Surface {
    /// Whether the order of two fragments cannot matter on this surface:
    /// they are not at one pixel with one depth, and the surface stores
    /// colours of their shape.
    pub open spec fn order_free(self, a: Fragment, b: Fragment) -> bool {
        &&& a.x != b.x || a.y != b.y || a.depth != b.depth
        &&& a.color.channels() == self.canvas.channels
        &&& b.color.channels() == self.canvas.channels
    }

    /// Two fragments that differ in pixel or in depth leave the same surface
    /// in either order.
    pub proof fn lemma_plot_order(self, a: Fragment, b: Fragment)
        requires
            self.wf(),
            self.order_free(a, b),
        ensures
            self.plot(a).plot(b) == self.plot(b).plot(a),
    {
        let w = self.canvas.width as int;
        let h = self.canvas.height as int;
        let ab = self.plot(a).plot(b);
        let ba = self.plot(b).plot(a);
        self.lemma_plot_keeps_shape(a);
        self.lemma_plot_keeps_shape(b);
        if self.canvas.contains(a.x as int, a.y as int) {
            lemma_slot_in_range(a.x as int, a.y as int, w, h);
        }
        if self.canvas.contains(b.x as int, b.y as int) {
            lemma_slot_in_range(b.x as int, b.y as int, w, h);
        }
        if self.canvas.contains(a.x as int, a.y as int) && self.canvas.contains(
            b.x as int,
            b.y as int,
        ) && self.slot(a.x as int, a.y as int) == self.slot(b.x as int, b.y as int) {
            lemma_slot_injective(a.x as int, a.y as int, b.x as int, b.y as int, w);
        }
        assert(ab.depth =~= ba.depth);
        assert(ab.canvas.pixels =~= ba.canvas.pixels);
    }

    /// A fragment may be moved behind a run of fragments when its order
    /// with each of them cannot matter.
    pub proof fn lemma_plot_past(self, a: Fragment, frags: Seq<Fragment>)
        requires
            self.wf(),
            forall|i: int| 0 <= i < frags.len() ==> self.order_free(a, #[trigger] frags[i]),
        ensures
            self.plot(a).fill(frags) == self.fill(frags).plot(a),
        decreases frags.len(),
    {
        if frags.len() > 0 {
            let before = self.fill(frags.drop_last());
            self.lemma_plot_past(a, frags.drop_last());
            self.lemma_fill_keeps_shape(frags.drop_last());
            assert(before.order_free(a, frags.last()));
            before.lemma_plot_order(a, frags.last());
        }
    }

    /// Two runs of fragments leave the same surface in either order when no
    /// fragment of the one shares both pixel and depth with a fragment of the
    /// other: the order of drawing matters only where depths tie.
    pub proof fn lemma_fill_order(self, first: Seq<Fragment>, second: Seq<Fragment>)
        requires
            self.wf(),
            forall|i: int, j: int|
                0 <= i < first.len() && 0 <= j < second.len() ==> self.order_free(
                    #[trigger] first[i],
                    #[trigger] second[j],
                ),
        ensures
            self.fill(first + second) == self.fill(second + first),
        decreases first.len(),
    {
        self.lemma_fill_append(first, second);
        self.lemma_fill_append(second, first);
        if first.len() > 0 {
            let rest = first.drop_last();
            let a = first.last();
            self.lemma_fill_keeps_shape(rest);
            assert forall|j: int| 0 <= j < second.len() implies self.fill(rest).order_free(
                a,
                #[trigger] second[j],
            ) by {
                assert(self.order_free(first[first.len() - 1], second[j]));
            }
            self.fill(rest).lemma_plot_past(a, second);
            self.lemma_fill_order(rest, second);
            self.lemma_fill_append(rest, second);
            self.lemma_fill_append(second, rest);
        }
    }
}

/// The surface that an image and a depth buffer make up.
pub open spec fn surface(image: TGAImage, z_buffer: Seq<i32>) -> Surface {
    Surface { canvas: canvas(image), depth: z_buffer }
}

/// A pixel inside a `width` by `height` canvas has a slot below
/// `width * height`.
pub proof fn lemma_slot_in_range(x: int, y: int, width: int, height: int)
    requires
        0 <= x < width,
        0 <= y < height,
    ensures
        0 <= y * width <= x + y * width < width * height,
{
    assert(0 <= y * width && (y + 1) * width <= height * width) by (nonlinear_arith)
        requires
            0 <= y < height,
            0 <= width,
    ;
    assert((y + 1) * width == y * width + width) by (nonlinear_arith);
    assert(height * width == width * height) by (nonlinear_arith);
}

/// Two pixels of one row width that share a slot are the same pixel.
pub proof fn lemma_slot_injective(x: int, y: int, x2: int, y2: int, width: int)
    requires
        0 <= x < width,
        0 <= x2 < width,
        x + y * width == x2 + y2 * width,
    ensures
        x == x2,
        y == y2,
{
    if y < y2 {
        assert((y + 1) * width <= y2 * width) by (nonlinear_arith)
            requires
                y + 1 <= y2,
                0 <= width,
        ;
        assert((y + 1) * width == y * width + width) by (nonlinear_arith);
    } else if y2 < y {
        assert((y2 + 1) * width <= y * width) by (nonlinear_arith)
            requires
                y2 + 1 <= y,
                0 <= width,
        ;
        assert((y2 + 1) * width == y2 * width + width) by (nonlinear_arith);
    }
}

/// Puts one fragment through the depth test and, where it passes, records
/// its depth and writes its colour. Returns whether it passed.
pub fn plot(frag: &Fragment, z_buffer: &mut [i32], image: &mut TGAImage) -> (shown: bool)
    requires
        old(z_buffer)@.len() == image_width(*old(image)) * image_height(*old(image)),
    ensures
        shown == surface(*old(image), old(z_buffer)@).shows(*frag),
        surface(*final(image), final(z_buffer)@) == surface(*old(image), old(z_buffer)@).plot(
            *frag,
        ),
        surface(*final(image), final(z_buffer)@).same_shape(
            surface(*old(image), old(z_buffer)@),
        ),
{
    let width = image.width();
    let height = image.height();
    if frag.x < 0 || frag.y < 0 {
        return false;
    }
    let x = frag.x as usize;
    let y = frag.y as usize;
    if x >= width || y >= height {
        return false;
    }
    proof {
        lemma_slot_in_range(x as int, y as int, width as int, height as int);
        assert(z_buffer@.len() == z_buffer.len());
    }
    let slot = x + y * width;
    if z_buffer[slot] < frag.depth {
        z_buffer[slot] = frag.depth;
        set_pixel(image, x, y, &frag.color);
        true
    } else {
        false
    }
}

/// Puts a run of fragments through the depth test, in order.
pub fn fill(frags: &[Fragment], z_buffer: &mut [i32], image: &mut TGAImage)
    requires
        old(z_buffer)@.len() == image_width(*old(image)) * image_height(*old(image)),
    ensures
        surface(*final(image), final(z_buffer)@) == surface(*old(image), old(z_buffer)@).fill(
            frags@,
        ),
        surface(*final(image), final(z_buffer)@).same_shape(
            surface(*old(image), old(z_buffer)@),
        ),
{
    let ghost start = surface(*image, z_buffer@);
    let mut i: usize = 0;
    while i < frags.len()
        invariant
            i <= frags@.len(),
            surface(*image, z_buffer@).same_shape(start),
            start.wf(),
            surface(*image, z_buffer@) == start.fill(frags@.take(i as int)),
        decreases frags@.len() - i,
    {
        plot(&frags[i], z_buffer, image);
        proof {
            assert(frags@.take(i + 1).drop_last() =~= frags@.take(i as int));
        }
        i += 1;
    }
    assert(frags@.take(i as int) =~= frags@);
}

/// What the geometry of a textured shape says of a pixel it covers: the
/// depth of the shape there and the texel `(u, v)` that colours it.
#[derive(Debug, Clone, Copy, PartialEq, Eq, Structural)]
pub struct Sample {
    pub depth: i32,
    pub u: usize,
    pub v: usize,
}

impl Sample {
    /// Whether the sample's texel lies inside the texture.
    pub open spec fn in_texture(self, texture: Canvas) -> bool {
        texture.contains(self.u as int, self.v as int)
    }

    /// The fragment that the sample makes at the pixel `(x, y)`: its colour
    /// is the texel, scaled by the light levels.
    pub open spec fn shaded(self, x: i32, y: i32, texture: Canvas, levels: Seq<u8>) -> Fragment {
        Fragment {
            x,
            y,
            depth: self.depth,
            color: texture.pixels[(self.u as int, self.v as int)].modulated(levels),
        }
    }

    /// Reads the sample's texel and scales it by the light levels.
    pub fn shade(&self, x: i32, y: i32, texture: &TGAImage, levels: &[u8; 256]) -> (frag: Fragment)
        requires
            self.in_texture(canvas(*texture)),
            image_channels(*texture) == 3 || image_channels(*texture) == 4,
        ensures
            frag == self.shaded(x, y, canvas(*texture), levels@),
            frag.color.channels() == image_channels(*texture),
    {
        let texel = get_pixel(texture, self.u, self.v);
        Fragment { x, y, depth: self.depth, color: texel.modulate(levels) }
    }
}

} // verus!
