use rayitolib::image::Image;
use rayitolib::image::Pixel;
use rayitolib::ppm::to_ppm_p3_string;

#[test]
fn ppm_exact_text() {
    let mut image = Image::new(2, 1);
    image.set(0, 0, Pixel::new(1, 2, 3));
    image.set(0, 1, Pixel::new(255, 0, 10));
    assert_eq!(to_ppm_p3_string(&image), "P3 2 1 255\n1 2 3\n255 0 10\n");
}

#[test]
fn ppm_row_major_order() {
    let mut image = Image::new(2, 2);
    image.set(0, 0, Pixel::new(10, 0, 0));
    image.set(0, 1, Pixel::new(20, 0, 0));
    image.set(1, 0, Pixel::new(30, 0, 0));
    image.set(1, 1, Pixel::new(40, 0, 0));
    assert_eq!(
        to_ppm_p3_string(&image),
        "P3 2 2 255\n10 0 0\n20 0 0\n30 0 0\n40 0 0\n"
    );
}

#[test]
fn ppm_empty_image() {
    let image = Image::new(0, 0);
    assert_eq!(to_ppm_p3_string(&image), "P3 0 0 255\n");
}

#[test]
fn ppm_black_image() {
    let image = Image::new(1, 2);
    assert_eq!(to_ppm_p3_string(&image), "P3 1 2 255\n0 0 0\n0 0 0\n");
}
