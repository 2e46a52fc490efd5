use raster::canvas::Color;
use raster::surface::{fill, plot, Fragment, Sample};
use tgaimage::{TGAColor, TGAImage};

const RED: Color = Color::Rgb { r: 200, g: 0, b: 0 };
const GREEN: Color = Color::Rgb { r: 0, g: 200, b: 0 };
const BLUE: Color = Color::Rgb { r: 0, g: 0, b: 200 };

fn rgba_at(image: &TGAImage, x: usize, y: usize) -> (u8, u8, u8, u8) {
    match image.get(x, y) {
        TGAColor::Rgb(c) => (c.r, c.g, c.b, 255),
        TGAColor::Rgba(c) => (c.r, c.g, c.b, c.a),
    }
}

fn rgb_at(image: &TGAImage, x: usize, y: usize) -> (u8, u8, u8) {
    let (r, g, b, _) = rgba_at(image, x, y);
    (r, g, b)
}

fn snapshot(image: &TGAImage) -> Vec<(u8, u8, u8, u8)> {
    let mut out = Vec::new();
    for y in 0..image.height() {
        for x in 0..image.width() {
            out.push(rgba_at(image, x, y));
        }
    }
    out
}

fn frag(x: i32, y: i32, depth: i32, color: Color) -> Fragment {
    Fragment { x, y, depth, color }
}

fn identity_levels() -> [u8; 256] {
    let mut levels = [0u8; 256];
    for c in 0..256 {
        levels[c] = c as u8;
    }
    levels
}

#[test]
fn nearer_fragment_is_written_and_its_depth_recorded() {
    let mut image = TGAImage::new(3, 2, 3);
    let mut z = vec![i32::MIN; 6];
    assert!(plot(&frag(1, 1, 5, RED), &mut z, &mut image));
    assert_eq!(rgb_at(&image, 1, 1), (200, 0, 0));
    // the pixel (1, 1) of a three-column image has slot 1 + 1 * 3
    let mut expected = vec![i32::MIN; 6];
    expected[4] = 5;
    assert_eq!(z, expected);
    for (x, y) in [(0, 0), (1, 0), (2, 0), (0, 1), (2, 1)] {
        assert_eq!(rgb_at(&image, x, y), (0, 0, 0));
    }
}

#[test]
fn slot_goes_by_the_width_not_the_height() {
    let mut image = TGAImage::new(2, 5, 3);
    let mut z = vec![0; 10];
    assert!(plot(&frag(1, 3, 9, GREEN), &mut z, &mut image));
    assert_eq!(z, vec![0, 0, 0, 0, 0, 0, 0, 9, 0, 0]);
    assert_eq!(rgb_at(&image, 1, 3), (0, 200, 0));
}

#[test]
fn farther_fragment_is_dropped() {
    let mut image = TGAImage::new(2, 2, 3);
    let mut z = vec![10; 4];
    assert!(!plot(&frag(0, 1, 9, RED), &mut z, &mut image));
    assert_eq!(z, vec![10; 4]);
    assert_eq!(rgb_at(&image, 0, 1), (0, 0, 0));
}

#[test]
fn equal_depth_does_not_overwrite() {
    let mut image = TGAImage::new(2, 2, 3);
    let mut z = vec![i32::MIN; 4];
    assert!(plot(&frag(1, 0, 7, RED), &mut z, &mut image));
    assert!(!plot(&frag(1, 0, 7, GREEN), &mut z, &mut image));
    assert_eq!(rgb_at(&image, 1, 0), (200, 0, 0));
    assert_eq!(z[1], 7);
    assert!(plot(&frag(1, 0, 8, GREEN), &mut z, &mut image));
    assert_eq!(rgb_at(&image, 1, 0), (0, 200, 0));
    assert_eq!(z[1], 8);
}

#[test]
fn fragment_outside_the_image_changes_nothing() {
    let mut image = TGAImage::new(3, 2, 3);
    let mut z = vec![0; 6];
    for (x, y) in [(-1, 0), (0, -1), (3, 0), (0, 2), (3, 1), (i32::MAX, i32::MAX), (i32::MIN, 0)] {
        assert!(!plot(&frag(x, y, 100, RED), &mut z, &mut image));
    }
    assert_eq!(z, vec![0; 6]);
    assert_eq!(snapshot(&image), vec![(0, 0, 0, 255); 6]);
}

#[test]
fn colour_of_the_wrong_shape_still_records_its_depth() {
    let mut image = TGAImage::new(2, 1, 3);
    let mut z = vec![0; 2];
    let with_alpha = Color::Rgba { r: 1, g: 2, b: 3, a: 4 };
    assert!(plot(&frag(1, 0, 5, with_alpha), &mut z, &mut image));
    assert_eq!(z, vec![0, 5]);
    assert_eq!(rgb_at(&image, 1, 0), (0, 0, 0));
}

#[test]
fn alpha_is_stored_in_a_four_channel_image() {
    let mut image = TGAImage::new(2, 1, 4);
    let mut z = vec![0; 2];
    let with_alpha = Color::Rgba { r: 1, g: 2, b: 3, a: 4 };
    assert!(plot(&frag(0, 0, 5, with_alpha), &mut z, &mut image));
    assert_eq!(rgba_at(&image, 0, 0), (1, 2, 3, 4));
}

#[test]
fn empty_image_takes_no_fragment() {
    let mut image = TGAImage::new(0, 0, 3);
    let mut z: Vec<i32> = Vec::new();
    assert!(!plot(&frag(0, 0, 1, RED), &mut z, &mut image));
    fill(&[frag(0, 0, 1, RED), frag(1, 1, 2, GREEN)], &mut z, &mut image);
    assert!(z.is_empty());
}

#[test]
fn fill_keeps_the_nearest_fragment_of_each_pixel() {
    let mut image = TGAImage::new(2, 2, 3);
    let mut z = vec![i32::MIN; 4];
    let frags = [
        frag(0, 0, 1, RED),
        frag(1, 0, 4, GREEN),
        frag(0, 0, 3, BLUE),
        frag(1, 0, 2, RED),
        frag(0, 0, 2, GREEN),
        frag(1, 1, -7, BLUE),
    ];
    fill(&frags, &mut z, &mut image);
    assert_eq!(z, vec![3, 4, i32::MIN, -7]);
    assert_eq!(rgb_at(&image, 0, 0), (0, 0, 200));
    assert_eq!(rgb_at(&image, 1, 0), (0, 200, 0));
    assert_eq!(rgb_at(&image, 0, 1), (0, 0, 0));
    assert_eq!(rgb_at(&image, 1, 1), (0, 0, 200));
}

#[test]
fn fill_of_nothing_changes_nothing() {
    let mut image = TGAImage::new(2, 2, 3);
    let mut z = vec![3; 4];
    fill(&[], &mut z, &mut image);
    assert_eq!(z, vec![3; 4]);
    assert_eq!(snapshot(&image), vec![(0, 0, 0, 255); 4]);
}

#[test]
fn filling_twice_is_filling_once() {
    let frags = [
        frag(0, 0, 1, RED),
        frag(1, 0, 4, GREEN),
        frag(0, 0, 3, BLUE),
        frag(2, 1, 0, RED),
        frag(0, 0, 3, GREEN),
        frag(5, 5, 9, GREEN),
    ];
    let mut image = TGAImage::new(3, 2, 3);
    let mut z = vec![i32::MIN; 6];
    fill(&frags, &mut z, &mut image);
    let once = (snapshot(&image), z.clone());
    fill(&frags, &mut z, &mut image);
    assert_eq!((snapshot(&image), z), once);
}

#[test]
fn nearer_shape_shows_whichever_is_filled_first() {
    // two shapes that overlap at (1, 1): the red one is nearer there
    let near = [frag(0, 1, 6, RED), frag(1, 1, 6, RED), frag(2, 1, 6, RED)];
    let far = [frag(1, 0, 2, GREEN), frag(1, 1, 2, GREEN), frag(1, 2, 2, GREEN)];

    let mut first = TGAImage::new(3, 3, 3);
    let mut z_first = vec![i32::MIN; 9];
    fill(&near, &mut z_first, &mut first);
    fill(&far, &mut z_first, &mut first);

    let mut second = TGAImage::new(3, 3, 3);
    let mut z_second = vec![i32::MIN; 9];
    fill(&far, &mut z_second, &mut second);
    fill(&near, &mut z_second, &mut second);

    assert_eq!(rgb_at(&first, 1, 1), (200, 0, 0));
    assert_eq!(rgb_at(&second, 1, 1), (200, 0, 0));
    assert_eq!(z_first[4], 6);
    assert_eq!(z_second[4], 6);
    assert_eq!(snapshot(&first), snapshot(&second));
    assert_eq!(z_first, z_second);
    assert_eq!(rgb_at(&first, 1, 0), (0, 200, 0));
    assert_eq!(rgb_at(&first, 0, 1), (200, 0, 0));
}

#[test]
fn modulate_scales_colour_and_keeps_alpha() {
    let mut half = [0u8; 256];
    for c in 0..256 {
        half[c] = (c / 2) as u8;
    }
    assert_eq!(
        Color::Rgb { r: 200, g: 101, b: 0 }.modulate(&half),
        Color::Rgb { r: 100, g: 50, b: 0 }
    );
    assert_eq!(
        Color::Rgba { r: 255, g: 1, b: 64, a: 77 }.modulate(&half),
        Color::Rgba { r: 127, g: 0, b: 32, a: 77 }
    );
    let same = identity_levels();
    assert_eq!(
        Color::Rgba { r: 255, g: 1, b: 64, a: 77 }.modulate(&same),
        Color::Rgba { r: 255, g: 1, b: 64, a: 77 }
    );
}

#[test]
fn modulate_reads_each_channel_s_own_level() {
    let mut levels = [0u8; 256];
    levels[10] = 1;
    levels[20] = 2;
    levels[30] = 3;
    assert_eq!(
        Color::Rgb { r: 10, g: 20, b: 30 }.modulate(&levels),
        Color::Rgb { r: 1, g: 2, b: 3 }
    );
    assert_eq!(
        Color::Rgb { r: 30, g: 10, b: 20 }.modulate(&levels),
        Color::Rgb { r: 3, g: 1, b: 2 }
    );
}

fn texture_2x2() -> TGAImage {
    let mut texture = TGAImage::new(2, 2, 3);
    texture.set(0, 0, &TGAColor::rgb(10, 11, 12));
    texture.set(1, 0, &TGAColor::rgb(20, 21, 22));
    texture.set(0, 1, &TGAColor::rgb(30, 31, 32));
    texture.set(1, 1, &TGAColor::rgb(40, 41, 42));
    texture
}

#[test]
fn shade_reads_the_texel_it_names() {
    let texture = texture_2x2();
    let levels = identity_levels();
    let s = Sample { depth: 9, u: 1, v: 0 };
    assert_eq!(
        s.shade(7, -3, &texture, &levels),
        Fragment { x: 7, y: -3, depth: 9, color: Color::Rgb { r: 20, g: 21, b: 22 } }
    );
    let s = Sample { depth: 0, u: 0, v: 1 };
    assert_eq!(s.shade(0, 0, &texture, &levels).color, Color::Rgb { r: 30, g: 31, b: 32 });
}

#[test]
fn shade_keeps_the_alpha_of_a_four_channel_texture() {
    let mut texture = TGAImage::new(1, 1, 4);
    texture.set(0, 0, &TGAColor::rgba(100, 50, 200, 33));
    let mut half = [0u8; 256];
    for c in 0..256 {
        half[c] = (c / 2) as u8;
    }
    let s = Sample { depth: 0, u: 0, v: 0 };
    assert_eq!(s.shade(0, 0, &texture, &half).color, Color::Rgba { r: 50, g: 25, b: 100, a: 33 });
}
