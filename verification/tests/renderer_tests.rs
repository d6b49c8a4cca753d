use rayitolib::image::Image;
use rayitolib::image::Pixel;
use rayitolib::image::Tile;
use rayitolib::renderers::draw_blank;
use rayitolib::renderers::plan_tiles;

#[test]
fn draw_blank_is_black() {
    let image = draw_blank(2, 2);
    assert_eq!(image.get_width(), 2);
    assert_eq!(image.get_height(), 2);
    for x in 0..2u32 {
        for y in 0..2u32 {
            assert_eq!(*image.get(x, y), Pixel::new(0, 0, 0));
        }
    }
}

#[test]
fn plan_tiles_even_height() {
    // 64 rows split evenly over 32 jobs: two rows per band
    let tiles = plan_tiles(4, 64);
    assert_eq!(tiles.len(), 32);
    for (i, tile) in tiles.iter().enumerate() {
        assert_eq!(tile.start_x(), 2 * i as u32);
        assert_eq!(tile.start_y(), 0);
        assert_eq!(tile.image().get_width(), 4);
        assert_eq!(tile.image().get_height(), 2);
    }
}

#[test]
fn plan_tiles_uneven_height() {
    // 100 rows: 32 bands of 3 rows, one extra band of the remaining 4
    let tiles = plan_tiles(4, 100);
    assert_eq!(tiles.len(), 33);
    let mut covered: u32 = 0;
    for (i, tile) in tiles.iter().enumerate() {
        assert_eq!(tile.start_x(), 3 * i as u32);
        assert_eq!(tile.start_x(), covered);
        if i < 32 {
            assert_eq!(tile.image().get_height(), 3);
        } else {
            assert_eq!(tile.image().get_height(), 4);
        }
        covered += tile.image().get_height();
    }
    assert_eq!(covered, 100);
}

#[test]
fn plan_tiles_short_height() {
    // fewer rows than jobs: 32 empty bands and one band with every row
    let tiles = plan_tiles(3, 10);
    assert_eq!(tiles.len(), 33);
    for tile in tiles.iter().take(32) {
        assert_eq!(tile.image().get_height(), 0);
        assert_eq!(tile.start_x(), 0);
    }
    assert_eq!(tiles[32].image().get_height(), 10);
    assert_eq!(tiles[32].start_x(), 0);
}

#[test]
fn planned_tiles_reassemble() {
    // fill each planned band and reassemble: every pixel lands at its row
    let width: u32 = 2;
    let height: u32 = 67;
    let mut tiles: Vec<Tile> = plan_tiles(width, height);
    for tile in tiles.iter_mut() {
        let start: u32 = tile.start_x();
        let rows: u32 = tile.image().get_height();
        for x in start..start + rows {
            for y in 0..width {
                tile.set(x, y, Pixel::new(x as u8, y as u8, 0));
            }
        }
    }
    let image = Image::from_tiles(width, height, tiles);
    for x in 0..height {
        for y in 0..width {
            assert_eq!(*image.get(x, y), Pixel::new(x as u8, y as u8, 0));
        }
    }
}
