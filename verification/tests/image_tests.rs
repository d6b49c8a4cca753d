use rayitolib::image::Image;
use rayitolib::image::Pixel;
use rayitolib::image::Tile;

#[test]
fn pixel_channels() {
    let p = Pixel::new(7, 130, 255);
    assert_eq!(p.get_red(), 7);
    assert_eq!(p.get_green(), 130);
    assert_eq!(p.get_blue(), 255);
}

#[test]
fn new_image_is_black() {
    let image = Image::new(3, 2);
    assert_eq!(image.get_width(), 3);
    assert_eq!(image.get_height(), 2);
    assert_eq!(image.get_pixel_count(), 6);
    for x in 0..2u32 {
        for y in 0..3u32 {
            assert_eq!(*image.get(x, y), Pixel::new(0, 0, 0));
        }
    }
}

#[test]
fn image_set_then_get() {
    let mut image = Image::new(4, 3);
    image.set(2, 1, Pixel::new(9, 8, 7));
    image.set(0, 3, Pixel::new(1, 2, 3));
    assert_eq!(*image.get(2, 1), Pixel::new(9, 8, 7));
    assert_eq!(*image.get(0, 3), Pixel::new(1, 2, 3));
    // an untouched position stays black
    assert_eq!(*image.get(1, 1), Pixel::new(0, 0, 0));
}

#[test]
fn tile_set_uses_image_coordinates() {
    // a band that starts at row 5 of the full image
    let mut tile = Tile::new(5, 0, 4, 2);
    assert_eq!(tile.start_x(), 5);
    assert_eq!(tile.start_y(), 0);
    tile.set(6, 3, Pixel::new(42, 0, 0));
    let inner = tile.extract_image();
    assert_eq!(inner.get_width(), 4);
    assert_eq!(inner.get_height(), 2);
    assert_eq!(*inner.get(1, 3), Pixel::new(42, 0, 0));
}

/// The pixel a deterministic fake render assigns to row `x`, column `y`.
fn sample_pixel(x: u32, y: u32) -> Pixel {
    Pixel::new(
        (x * 31 + y * 7) as u8,
        (x * 5 + 11) as u8,
        (y * 13 + 3) as u8,
    )
}

fn fill_tile(tile: &mut Tile, width: u32) {
    let start_x: u32 = tile.start_x();
    let rows: u32 = tile.image().get_height();
    for x in start_x..start_x + rows {
        for y in 0..width {
            tile.set(x, y, sample_pixel(x, y));
        }
    }
}

#[test]
fn from_tiles_concatenates_in_start_order() {
    // three bands of non-uniform height handed over out of order
    let width: u32 = 3;
    let height: u32 = 6;
    let mut top = Tile::new(0, 0, width, 1);
    let mut middle = Tile::new(1, 0, width, 3);
    let mut bottom = Tile::new(4, 0, width, 2);
    fill_tile(&mut top, width);
    fill_tile(&mut middle, width);
    fill_tile(&mut bottom, width);
    let assembled = Image::from_tiles(width, height, vec![bottom, top, middle]);
    assert_eq!(assembled.get_width(), width);
    assert_eq!(assembled.get_height(), height);
    for x in 0..height {
        for y in 0..width {
            assert_eq!(*assembled.get(x, y), sample_pixel(x, y));
        }
    }
}

#[test]
fn tile_render_matches_direct_render() {
    // rendering the whole image directly and rendering it split into bands
    // must agree pixel for pixel and byte for byte
    let width: u32 = 5;
    let height: u32 = 7;

    let mut direct = Image::new(width, height);
    for x in 0..height {
        for y in 0..width {
            direct.set(x, y, sample_pixel(x, y));
        }
    }

    let heights: [u32; 4] = [2, 1, 3, 1];
    let mut tiles: Vec<Tile> = Vec::new();
    let mut start: u32 = 0;
    for h in heights {
        let mut tile = Tile::new(start, 0, width, h);
        fill_tile(&mut tile, width);
        tiles.push(tile);
        start += h;
    }
    tiles.reverse();
    let assembled = Image::from_tiles(width, height, tiles);

    for x in 0..height {
        for y in 0..width {
            assert_eq!(*assembled.get(x, y), *direct.get(x, y));
        }
    }
    assert_eq!(
        rayitolib::ppm::to_ppm_p3_string(&assembled),
        rayitolib::ppm::to_ppm_p3_string(&direct)
    );
}

#[test]
fn from_tiles_of_empty_image() {
    let tiles: Vec<Tile> = vec![Tile::new(0, 0, 0, 0)];
    let image = Image::from_tiles(0, 0, tiles);
    assert_eq!(image.get_pixel_count(), 0);
}
