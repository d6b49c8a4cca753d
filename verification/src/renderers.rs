//! The renderer's verified scaffolding: blank canvases and the scheduler's
//! partition of an image into horizontal band tiles. Filling the tiles with
//! traced rays happens outside; reassembly is `Image::from_tiles`.

use vstd::prelude::*;
use crate::image::band_start;
use crate::image::is_band_partition;
use crate::image::Image;
use crate::image::Tile;

verus! {

/// A fresh all-black image of the requested size.
pub fn draw_blank(width: u32, height: u32) -> (image: Image)
    requires
        width * height <= u32::MAX,
    ensures
        image.wf(),
        image.spec_width() == width,
        image.spec_height() == height,
        forall|i: int|
            0 <= i < image.pixels().len() ==> image.pixels()[i] == crate::image::black(),
{
    Image::new(width, height)
}

proof fn lemma_uniform_band_start(s: Seq<Tile>, lines: int, k: int)
    requires
        0 <= k <= s.len(),
        forall|j: int|
            0 <= j < k ==> (#[trigger] s[j]).spec_image().spec_height() == lines,
    ensures
        band_start(s, k) == k * lines,
    decreases k,
{
    if k > 0 {
        lemma_uniform_band_start(s, lines, k - 1);
        assert((k - 1) * lines + lines == k * lines) by (nonlinear_arith);
    }
}

/// Splits a `width x height` render into horizontal band tiles: a fixed job
/// count of full-width bands of `height / 32` rows each, plus one extra band
/// holding the remaining rows when the height does not divide evenly. The
/// tiles partition the image's rows exactly, in order.
pub fn plan_tiles(width: u32, height: u32) -> (tiles: Vec<Tile>)
    requires
        width * height <= u32::MAX,
    ensures
        tiles@.len() == (if height % 32 == 0 {
            32int
        } else {
            33int
        }),
        is_band_partition(tiles@, width as int, height as int),
        forall|k: int|
            0 <= k < tiles@.len() ==> (#[trigger] tiles@[k]).spec_start_x() == k * ((height
                / 32) as int),
        forall|k: int|
            0 <= k < tiles@.len() - 1 ==> (#[trigger] tiles@[k]).spec_image().spec_height()
                == height / 32,
        tiles@.last().spec_image().spec_height() == height - (tiles@.len() - 1) * ((height
            / 32) as int),
{
    let jobs: u32 = 32;
    let lines_per_tile = height / jobs;
    let tile_count = if height % jobs == 0 {
        jobs
    } else {
        jobs + 1
    };
    proof {
        assert(32 * (height / 32) + height % 32 == height) by (nonlinear_arith);
    }
    let mut tiles: Vec<Tile> = Vec::with_capacity(tile_count as usize);
    for i in 0..tile_count
        invariant
            lines_per_tile == height / 32,
            tile_count == (if height % 32 == 0 {
                32u32
            } else {
                33u32
            }),
            32 * (height / 32) <= height,
            width * height <= u32::MAX,
            tiles@.len() == i,
            forall|k: int| 0 <= k < i ==> (#[trigger] tiles@[k]).wf(),
            forall|k: int| 0 <= k < i ==> (#[trigger] tiles@[k]).spec_start_y() == 0,
            forall|k: int|
                0 <= k < i ==> (#[trigger] tiles@[k]).spec_image().spec_width() == width,
            forall|k: int|
                0 <= k < i ==> (#[trigger] tiles@[k]).spec_start_x() == k * ((height
                    / 32) as int),
            forall|k: int|
                0 <= k < i && k < tile_count - 1 ==> (
                #[trigger] tiles@[k]).spec_image().spec_height() == height / 32,
            forall|k: int|
                0 <= k < i && k == tile_count - 1 ==> (
                #[trigger] tiles@[k]).spec_image().spec_height() == height - (tile_count - 1)
                    * ((height / 32) as int),
    {
        proof {
            assert(i * lines_per_tile <= 32 * lines_per_tile) by (nonlinear_arith)
                requires
                    i <= 32,
                    lines_per_tile >= 0,
            ;
        }
        let start_x = i * lines_per_tile;
        let tile_height = if i < tile_count - 1 {
            lines_per_tile
        } else {
            proof {
                assert(i * lines_per_tile <= height);
            }
            height - lines_per_tile * i
        };
        proof {
            assert(width * tile_height <= width * height) by (nonlinear_arith)
                requires
                    0 <= tile_height <= height,
                    width >= 0,
            ;
        }
        tiles.push(Tile::new(start_x, 0, width, tile_height));
    }
    proof {
        let s = tiles@;
        let lines = (height / 32) as int;
        assert forall|k: int| 0 <= k < s.len() implies (#[trigger] s[k]).spec_start_x()
            == band_start(s, k) by {
            lemma_uniform_band_start(s, lines, k);
        }
        lemma_uniform_band_start(s, lines, s.len() - 1);
        assert(band_start(s, s.len() as int) == band_start(s, s.len() - 1) + s[s.len()
            - 1].spec_image().spec_height());
        assert(band_start(s, s.len() as int) == height);
    }
    tiles
}

} // verus!
