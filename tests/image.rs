use rt_weekend::hit::Face;
use rt_weekend::image::{Image, Rgb8};

#[test]
fn render_small_image() {
    let image = Image {
        width: 2,
        height: 1,
        data: vec![Rgb8 { r: 255, g: 0, b: 7 }, Rgb8 { r: 10, g: 128, b: 99 }],
    };
    assert_eq!(image.render(), "P3\n2 1\n255\n255 0 7\n10 128 99\n");
}

#[test]
fn render_writes_only_the_image_pixels() {
    let image = Image {
        width: 1,
        height: 1,
        data: vec![Rgb8 { r: 1, g: 2, b: 3 }, Rgb8 { r: 4, g: 5, b: 6 }],
    };
    assert_eq!(image.render(), "P3\n1 1\n255\n1 2 3\n");
}

#[test]
fn render_empty_image() {
    let image = Image { width: 0, height: 0, data: vec![] };
    assert_eq!(image.render(), "P3\n0 0\n255\n");
}

#[test]
fn face_from_orientation() {
    assert_eq!(Face::from_orientation(true), Face::Front);
    assert_eq!(Face::from_orientation(false), Face::Back);
}
