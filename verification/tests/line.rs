use obj::ObjData;
use raster::canvas::Color;
use raster::draw;
use tgaimage::{TGAColor, TGAImage};

const WHITE: Color = Color::Rgb { r: 255, g: 255, b: 255 };

fn rgb_at(image: &TGAImage, x: usize, y: usize) -> (u8, u8, u8) {
    match image.get(x, y) {
        TGAColor::Rgb(c) => (c.r, c.g, c.b),
        TGAColor::Rgba(c) => (c.r, c.g, c.b),
    }
}

/// The positions of an image that are not black, row by row.
fn lit(image: &TGAImage) -> Vec<(usize, usize)> {
    let mut out = Vec::new();
    for y in 0..image.height() {
        for x in 0..image.width() {
            if rgb_at(image, x, y) != (0, 0, 0) {
                out.push((x, y));
            }
        }
    }
    out
}

fn drawn(x0: i32, y0: i32, x1: i32, y1: i32) -> Vec<(usize, usize)> {
    let mut image = TGAImage::new(12, 12, 3);
    draw::line(x0, y0, x1, y1, &mut image, &WHITE);
    lit(&image)
}

#[test]
fn horizontal_line_leaves_out_its_last_pixel() {
    let mut image = TGAImage::new(16, 4, 3);
    draw::line(0, 0, 10, 0, &mut image, &WHITE);
    for y in 0..4 {
        for x in 0..16 {
            let expected = if y == 0 && x < 10 { (255, 255, 255) } else { (0, 0, 0) };
            assert_eq!(rgb_at(&image, x, y), expected);
        }
    }
}

#[test]
fn shallow_line_rounds_to_the_nearest_row() {
    assert_eq!(drawn(0, 0, 5, 2), vec![(0, 0), (1, 0), (2, 1), (3, 1), (4, 2)]);
}

#[test]
fn falling_line_steps_down() {
    assert_eq!(drawn(0, 2, 5, 0), vec![(4, 0), (2, 1), (3, 1), (0, 2), (1, 2)]);
}

#[test]
fn steep_line_walks_along_y() {
    assert_eq!(drawn(1, 0, 3, 5), vec![(1, 0), (1, 1), (2, 2), (2, 3), (3, 4)]);
}

#[test]
fn diagonal_line() {
    assert_eq!(drawn(2, 2, 6, 6), vec![(2, 2), (3, 3), (4, 4), (5, 5)]);
}

#[test]
fn vertical_line_is_steep() {
    assert_eq!(drawn(4, 1, 4, 5), vec![(4, 1), (4, 2), (4, 3), (4, 4)]);
}

#[test]
fn single_point_draws_nothing() {
    assert_eq!(drawn(3, 3, 3, 3), vec![]);
}

#[test]
fn line_is_the_same_from_either_end() {
    let ends = [
        (0, 0, 10, 0),
        (0, 0, 5, 2),
        (1, 0, 3, 5),
        (11, 0, 0, 7),
        (2, 9, 9, 1),
        (6, 11, 5, 0),
        (-3, 4, 8, 14),
        (0, 0, 0, 0),
    ];
    for (x0, y0, x1, y1) in ends {
        assert_eq!(drawn(x0, y0, x1, y1), drawn(x1, y1, x0, y0));
    }
}

#[test]
fn pixels_outside_the_image_are_left_out() {
    // the row y = 1 from x = -3 to x = 19: only the part inside shows
    let mut image = TGAImage::new(4, 3, 3);
    draw::line(-3, 1, 20, 1, &mut image, &WHITE);
    assert_eq!(lit(&image), vec![(0, 1), (1, 1), (2, 1), (3, 1)]);
    // a line wholly outside
    let mut image = TGAImage::new(4, 3, 3);
    draw::line(-5, -5, -1, -2, &mut image, &WHITE);
    draw::line(0, 3, 4, 3, &mut image, &WHITE);
    assert_eq!(lit(&image), vec![]);
}

#[test]
fn colour_of_the_wrong_shape_is_not_drawn() {
    let mut image = TGAImage::new(8, 2, 3);
    let with_alpha = Color::Rgba { r: 9, g: 9, b: 9, a: 9 };
    draw::line(0, 0, 8, 0, &mut image, &with_alpha);
    assert_eq!(lit(&image), vec![]);
    let mut image = TGAImage::new(8, 2, 4);
    draw::line(0, 0, 8, 0, &mut image, &WHITE);
    assert_eq!(lit(&image), vec![]);
    draw::line(0, 1, 2, 1, &mut image, &with_alpha);
    assert_eq!(lit(&image), vec![(0, 1), (1, 1)]);
}

#[test]
fn line_writes_the_colour_it_is_given() {
    let mut image = TGAImage::new(4, 1, 3);
    draw::line(1, 0, 3, 0, &mut image, &Color::Rgb { r: 10, g: 20, b: 30 });
    assert_eq!(rgb_at(&image, 0, 0), (0, 0, 0));
    assert_eq!(rgb_at(&image, 1, 0), (10, 20, 30));
    assert_eq!(rgb_at(&image, 2, 0), (10, 20, 30));
    assert_eq!(rgb_at(&image, 3, 0), (0, 0, 0));
}

#[test]
fn extreme_coordinates_do_not_overflow() {
    let mut image = TGAImage::new(3, 3, 3);
    draw::line(i32::MAX - 2, i32::MIN, i32::MAX, i32::MIN + 1, &mut image, &WHITE);
    assert_eq!(lit(&image), vec![]);
}

const MESH: &str = "\
v -0.5 -0.5 0.0
v 0.5 -0.5 0.0
v 0.0 0.5 0.0
v 0.9 0.9 0.0
f 1 2 3
f 2 4 3
";

#[test]
fn test_line() {
    let data = ObjData::load_buf(MESH.as_bytes()).unwrap();
    let width = 40;
    let height = 40;
    let mut image = TGAImage::new(width, height, 3);
    let vertex = data.position;
    let mut edges = 0;
    for object in data.objects {
        for group in object.groups {
            for poly in group.polys {
                let vec3 = poly.0;
                for i in 0..3 {
                    let v0 = vertex[vec3[i].0 as usize];
                    let v1 = vertex[vec3[(i + 1) % 3].0 as usize];
                    let x0 = ((v0[0] + 1.0) * width as f32 / 2.0) as i32;
                    let y0 = ((v0[1] + 1.0) * height as f32 / 2.0) as i32;
                    let x1 = ((v1[0] + 1.0) * width as f32 / 2.0) as i32;
                    let y1 = ((v1[1] + 1.0) * height as f32 / 2.0) as i32;
                    draw::line(x0, y0, x1, y1, &mut image, &Color::Rgb { r: 255, g: 255, b: 255 });
                    edges += 1;
                }
            }
        }
    }
    assert_eq!(edges, 6);
    // the base of the first triangle runs along y = 10 from x = 10 to x = 29
    for x in 10..30 {
        assert_eq!(rgb_at(&image, x, 10), (255, 255, 255));
    }
    assert_eq!(rgb_at(&image, 9, 10), (0, 0, 0));
    // the centre of the first triangle is not on any edge
    assert_eq!(rgb_at(&image, 20, 15), (0, 0, 0));
    image.flip_vertically();
    for x in 10..30 {
        assert_eq!(rgb_at(&image, x, height - 1 - 10), (255, 255, 255));
    }
}

#[test]
fn consecutive_pixels_of_a_line_touch() {
    for (x0, y0, x1, y1) in [(0, 0, 11, 4), (0, 11, 3, 0), (11, 11, 0, 0), (2, 9, 9, 8)] {
        let cells = drawn(x0, y0, x1, y1);
        let steep = (x0 - x1).abs() < (y0 - y1).abs();
        let mut along: Vec<(usize, usize)> =
            cells.iter().map(|&(x, y)| if steep { (y, x) } else { (x, y) }).collect();
        along.sort();
        assert_eq!(along.len() as i32, if steep { (y0 - y1).abs() } else { (x0 - x1).abs() });
        for pair in along.windows(2) {
            assert_eq!(pair[1].0, pair[0].0 + 1);
            assert!(pair[1].1.abs_diff(pair[0].1) <= 1);
        }
    }
}
