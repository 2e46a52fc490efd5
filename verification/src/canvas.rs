//! The framebuffer: a `TGAImage` seen as a grid of colours.

use tgaimage::{TGAColor, TGAImage};
use vstd::prelude::*;

verus! {

/// A pixel value: three colour channels, with or without an alpha channel.
#[derive(Debug, Clone, Copy, PartialEq, Eq, Structural)]
pub enum Color {
    Rgb { r: u8, g: u8, b: u8 },
    Rgba { r: u8, g: u8, b: u8, a: u8 },
}

impl Color {
    /// The number of bytes that a pixel of this shape takes in an image.
    pub open spec fn channels(self) -> nat {
        match self {
            Color::Rgb { .. } => 3,
            Color::Rgba { .. } => 4,
        }
    }

    /// The colour with each of red, green and blue replaced by the level
    /// that `levels` gives for it; alpha, where there is one, is kept.
    pub open spec fn modulated(self, levels: Seq<u8>) -> Color {
        match self {
            Color::Rgb { r, g, b } => Color::Rgb {
                r: levels[r as int],
                g: levels[g as int],
                b: levels[b as int],
            },
            Color::Rgba { r, g, b, a } => Color::Rgba {
                r: levels[r as int],
                g: levels[g as int],
                b: levels[b as int],
                a,
            },
        }
    }

    /// Scales the colour by a light intensity, given as the table of the
    /// scaled value of each of the 256 channel values.
    pub fn modulate(self, levels: &[u8; 256]) -> (out: Color)
        ensures
            out == self.modulated(levels@),
    {
        match self {
            Color::Rgb { r, g, b } => Color::Rgb {
                r: levels[r as usize],
                g: levels[g as usize],
                b: levels[b as usize],
            },
            Color::Rgba { r, g, b, a } => Color::Rgba {
                r: levels[r as usize],
                g: levels[g as usize],
                b: levels[b as usize],
                a,
            },
        }
    }
}

/// `tgaimage::TGAImage`, an image held in memory. Its fields are private:
/// what it holds is known only through the four names below.
#[verifier::external_type_specification]
#[verifier::external_body]
pub struct ExTGAImage(TGAImage);

/// The number of pixel columns of an image: what `TGAImage::width`
/// returns.
pub uninterp spec fn image_width(image: TGAImage) -> nat;

/// The number of pixel rows of an image: what `TGAImage::height` returns.
pub uninterp spec fn image_height(image: TGAImage) -> nat;

/// The number of bytes that an image stores for each pixel: three for
/// `Rgb` colours, four for `Rgba` colours.
pub uninterp spec fn image_channels(image: TGAImage) -> nat;

/// The colour that an image stores at each position `(x, y)`, `x` counting
/// columns and `y` rows.
pub uninterp spec fn image_pixels(image: TGAImage) -> Map<(int, int), Color>;

/// `TGAImage::width` returns the number of columns that the image was made
/// with.
pub assume_specification[ TGAImage::width ](image: &TGAImage) -> (w: usize)
    ensures
        w == image_width(*image),
;

/// `TGAImage::height` returns the number of rows that the image was made
/// with.
pub assume_specification[ TGAImage::height ](image: &TGAImage) -> (h: usize)
    ensures
        h == image_height(*image),
;

/// What an image holds, as a mathematical value.
pub struct Canvas {
    pub width: nat,
    pub height: nat,
    pub channels: nat,
    pub pixels: Map<(int, int), Color>,
}

impl Canvas {
    /// Whether `(x, y)` lies inside the canvas.
    pub open spec fn contains(self, x: int, y: int) -> bool {
        0 <= x < self.width && 0 <= y < self.height
    }

    /// Whether a write of `color` at `(x, y)` takes effect: the position is
    /// inside the canvas and the colour has the shape that the canvas stores.
    pub open spec fn accepts(self, x: int, y: int, color: Color) -> bool {
        self.contains(x, y) && color.channels() == self.channels
    }

    /// The canvas after a write of `color` at `(x, y)`. A write that is not
    /// accepted changes nothing.
    pub open spec fn put(self, x: int, y: int, color: Color) -> Canvas {
        if self.accepts(x, y, color) {
            Canvas { pixels: self.pixels.insert((x, y), color), ..self }
        } else {
            self
        }
    }

    /// The canvas after `color` is written at every position of `points`:
    /// each accepted position holds `color`, every other position keeps
    /// what it held.
    pub open spec fn paint(self, points: Set<(int, int)>, color: Color) -> Canvas {
        Canvas {
            pixels: Map::new(
                |p: (int, int)|
                    self.pixels.dom().contains(p) || (points.contains(p) && self.accepts(
                        p.0,
                        p.1,
                        color,
                    )),
                |p: (int, int)|
                    if points.contains(p) && self.accepts(p.0, p.1, color) {
                        color
                    } else {
                        self.pixels[p]
                    },
            ),
            ..self
        }
    }

    /// Painting no position changes nothing.
    pub proof fn lemma_paint_empty(self, color: Color)
        ensures
            self.paint(Set::empty(), color) == self,
    {
        assert(self.paint(Set::empty(), color).pixels =~= self.pixels);
    }

    /// Painting one more position is a single write after the others.
    pub proof fn lemma_paint_insert(self, points: Set<(int, int)>, x: int, y: int, color: Color)
        ensures
            self.paint(points.insert((x, y)), color) == self.paint(points, color).put(x, y, color),
    {
        assert(self.paint(points.insert((x, y)), color).pixels =~= self.paint(points, color).put(
            x,
            y,
            color,
        ).pixels);
    }
}

/// The canvas that an image holds.
pub open spec fn canvas(image: TGAImage) -> Canvas {
    Canvas {
        width: image_width(image),
        height: image_height(image),
        channels: image_channels(image),
        pixels: image_pixels(image),
    }
}

/// Calls `TGAImage::get`. For a position inside an image that stores three
/// or four bytes per pixel, that method returns the colour stored there, as
/// an `Rgb` colour from three bytes and an `Rgba` colour from four. Other
/// positions and other pixel formats, on which it panics or reads another
/// pixel, are left out.
#[verifier::external_body]
pub(crate) fn get_pixel(image: &TGAImage, x: usize, y: usize) -> (color: Color)
    requires
        x < image_width(*image),
        y < image_height(*image),
        image_channels(*image) == 3 || image_channels(*image) == 4,
    ensures
        color == image_pixels(*image)[(x as int, y as int)],
        color.channels() == image_channels(*image),
{
    match image.get(x, y) {
        TGAColor::Rgb(c) => Color::Rgb { r: c.r, g: c.g, b: c.b },
        TGAColor::Rgba(c) => Color::Rgba { r: c.r, g: c.g, b: c.b, a: c.a },
    }
}

/// Calls `TGAImage::set`. That method leaves the image as it is and returns
/// `false` when the position is outside the image, or when the colour is
/// `Rgb` and the image does not store three bytes per pixel, or `Rgba` and
/// it does not store four; otherwise it stores the colour at that one
/// position and returns `true`. The size and pixel format never change. The
/// image holds `width * height` pixels, as `TGAImage::new` makes it.
#[verifier::external_body]
pub(crate) fn set_pixel(image: &mut TGAImage, x: usize, y: usize, color: &Color) -> (ok: bool)
    ensures
        ok == (x < image_width(*old(image)) && y < image_height(*old(image))
            && color.channels() == image_channels(*old(image))),
        image_width(*final(image)) == image_width(*old(image)),
        image_height(*final(image)) == image_height(*old(image)),
        image_channels(*final(image)) == image_channels(*old(image)),
        image_pixels(*final(image)) == if ok {
            image_pixels(*old(image)).insert((x as int, y as int), *color)
        } else {
            image_pixels(*old(image))
        },
{
    let c = match *color {
        Color::Rgb { r, g, b } => TGAColor::rgb(r, g, b),
        Color::Rgba { r, g, b, a } => TGAColor::rgba(r, g, b, a),
    };
    image.set(x, y, &c)
}

} // verus!
