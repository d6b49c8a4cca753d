//! Raster storage: 8-bit RGB pixels, row-major images, and the horizontal
//! band tiles that worker threads fill independently before reassembly.

use vstd::prelude::*;
use vstd::multiset::Multiset;

verus! {

/// One 8-bit RGB sample of the output raster.
#[derive(Clone, Copy, PartialEq, Eq, Structural, Debug)]
pub struct Pixel {
    pub r: u8,
    pub g: u8,
    pub b: u8,
}

impl Pixel {
    pub fn new(r: u8, g: u8, b: u8) -> (p: Pixel)
        ensures
            p == (Pixel { r, g, b }),
    {
        Pixel { r, g, b }
    }

    pub fn get_red(&self) -> (c: u8)
        ensures
            c == self.r,
    {
        self.r
    }

    pub fn get_green(&self) -> (c: u8)
        ensures
            c == self.g,
    {
        self.g
    }

    pub fn get_blue(&self) -> (c: u8)
        ensures
            c == self.b,
    {
        self.b
    }
}

/// The pixel every buffer starts out with: pure black.
pub open spec fn black() -> Pixel {
    Pixel { r: 0, g: 0, b: 0 }
}

fn init_bitmap(width: u32, height: u32) -> (bitmap: Vec<Pixel>)
    requires
        width * height <= u32::MAX,
    ensures
        bitmap@.len() == width * height,
        forall|i: int| 0 <= i < bitmap@.len() ==> bitmap@[i] == black(),
{
    let capacity = width * height;
    let mut bitmap: Vec<Pixel> = Vec::with_capacity(capacity as usize);
    for _i in 0..capacity
        invariant
            bitmap@.len() == _i,
            forall|j: int| 0 <= j < bitmap@.len() ==> bitmap@[j] == black(),
    {
        bitmap.push(Pixel::new(0, 0, 0))
    }
    bitmap
}

/// A row-major raster of `width * height` pixels. Row `x` runs from the top,
/// column `y` from the left; the pixel at `(x, y)` sits at index
/// `x * width + y` of the flat buffer.
pub struct Image {
    width: u32,
    height: u32,
    pixelmap: Vec<Pixel>,
}

impl Image {
    pub closed spec fn spec_width(&self) -> u32 {
        self.width
    }

    pub closed spec fn spec_height(&self) -> u32 {
        self.height
    }

    /// The flat row-major pixel buffer.
    pub closed spec fn pixels(&self) -> Seq<Pixel> {
        self.pixelmap@
    }

    /// The buffer holds exactly one pixel per raster position, and the
    /// raster is small enough that its pixel count fits in a `u32`.
    pub open spec fn wf(&self) -> bool {
        &&& self.pixels().len() == self.spec_width() * self.spec_height()
        &&& self.spec_width() * self.spec_height() <= u32::MAX
    }

    /// The flat index of the pixel in row `x`, column `y`.
    pub open spec fn spec_index_of(&self, x: int, y: int) -> int {
        x * self.spec_width() + y
    }

    pub fn new(width: u32, height: u32) -> (image: Image)
        requires
            width * height <= u32::MAX,
        ensures
            image.wf(),
            image.spec_width() == width,
            image.spec_height() == height,
            forall|i: int| 0 <= i < image.pixels().len() ==> image.pixels()[i] == black(),
    {
        Image { width, height, pixelmap: init_bitmap(width, height) }
    }

    fn xy_to_index(&self, x: u32, y: u32) -> (index: usize)
        requires
            self.wf(),
            x < self.spec_height(),
            y < self.spec_width(),
        ensures
            index == self.spec_index_of(x as int, y as int),
            index < self.pixels().len(),
    {
        proof {
            vstd::arithmetic::mul::lemma_mul_inequality(
                x as int + 1,
                self.spec_height() as int,
                self.spec_width() as int,
            );
            vstd::arithmetic::mul::lemma_mul_is_distributive_add_other_way(
                self.spec_width() as int,
                x as int,
                1,
            );
            vstd::arithmetic::mul::lemma_mul_is_commutative(
                self.spec_width() as int,
                self.spec_height() as int,
            );
        }
        (x * self.width + y) as usize
    }

    pub fn set(&mut self, x: u32, y: u32, pixel: Pixel)
        requires
            old(self).wf(),
            x < old(self).spec_height(),
            y < old(self).spec_width(),
        ensures
            final(self).wf(),
            final(self).spec_width() == old(self).spec_width(),
            final(self).spec_height() == old(self).spec_height(),
            final(self).pixels() == old(self).pixels().update(
                old(self).spec_index_of(x as int, y as int),
                pixel,
            ),
    {
        let index = self.xy_to_index(x, y);
        self.pixelmap[index] = pixel
    }

    pub fn get(&self, x: u32, y: u32) -> (pixel: &Pixel)
        requires
            self.wf(),
            x < self.spec_height(),
            y < self.spec_width(),
        ensures
            *pixel == self.pixels()[self.spec_index_of(x as int, y as int)],
    {
        let index = self.xy_to_index(x, y);
        &self.pixelmap[index]
    }

    pub fn get_width(&self) -> (w: u32)
        ensures
            w == self.spec_width(),
    {
        self.width
    }

    pub fn get_height(&self) -> (h: u32)
        ensures
            h == self.spec_height(),
    {
        self.height
    }

    pub fn get_pixel_count(&self) -> (count: u32)
        requires
            self.wf(),
        ensures
            count == self.pixels().len(),
    {
        self.width * self.height
    }
}

/// A horizontal band of the output image: a sub-raster whose row `0` is row
/// `start_x` of the full image and whose column `0` is column `start_y`.
pub struct Tile {
    start_x: u32,
    start_y: u32,
    image: Image,
}

impl Tile {
    pub closed spec fn spec_start_x(&self) -> u32 {
        self.start_x
    }

    pub closed spec fn spec_start_y(&self) -> u32 {
        self.start_y
    }

    pub closed spec fn spec_image(&self) -> Image {
        self.image
    }

    pub open spec fn wf(&self) -> bool {
        self.spec_image().wf()
    }

    pub fn new(start_x: u32, start_y: u32, width: u32, height: u32) -> (tile: Tile)
        requires
            width * height <= u32::MAX,
        ensures
            tile.wf(),
            tile.spec_start_x() == start_x,
            tile.spec_start_y() == start_y,
            tile.spec_image().spec_width() == width,
            tile.spec_image().spec_height() == height,
            forall|i: int|
                0 <= i < tile.spec_image().pixels().len() ==> tile.spec_image().pixels()[i]
                    == black(),
    {
        Tile { start_x, start_y, image: Image::new(width, height) }
    }

    pub fn image(&self) -> (image: &Image)
        ensures
            *image == self.spec_image(),
    {
        &self.image
    }

    pub fn set(&mut self, x: u32, y: u32, pixel: Pixel)
        requires
            old(self).wf(),
            old(self).spec_start_x() <= x,
            x - old(self).spec_start_x() < old(self).spec_image().spec_height(),
            old(self).spec_start_y() <= y,
            y - old(self).spec_start_y() < old(self).spec_image().spec_width(),
        ensures
            final(self).wf(),
            final(self).spec_start_x() == old(self).spec_start_x(),
            final(self).spec_start_y() == old(self).spec_start_y(),
            final(self).spec_image().spec_width() == old(self).spec_image().spec_width(),
            final(self).spec_image().spec_height() == old(self).spec_image().spec_height(),
            final(self).spec_image().pixels() == old(self).spec_image().pixels().update(
                old(self).spec_image().spec_index_of(
                    x - old(self).spec_start_x(),
                    y - old(self).spec_start_y(),
                ),
                pixel,
            ),
    {
        self.image.set(x - self.start_x, y - self.start_y, pixel);
    }

    pub fn start_x(&self) -> (x: u32)
        ensures
            x == self.spec_start_x(),
    {
        self.start_x
    }

    pub fn start_y(&self) -> (y: u32)
        ensures
            y == self.spec_start_y(),
    {
        self.start_y
    }

    pub fn extract_image(self) -> (image: Image)
        ensures
            image == self.spec_image(),
    {
        self.image
    }
}

/// Stable insertion of `t` into a run of tiles ordered by start row: `t`
/// lands after every tile whose start row does not exceed its own.
pub open spec fn insert_by_start(s: Seq<Tile>, t: Tile) -> Seq<Tile>
    decreases s.len(),
{
    if s.len() == 0 {
        seq![t]
    } else if s.last().spec_start_x() > t.spec_start_x() {
        insert_by_start(s.drop_last(), t).push(s.last())
    } else {
        s.push(t)
    }
}

/// Stable sort of tiles by start row: tiles with equal start rows keep
/// their relative order.
pub open spec fn sort_by_start(s: Seq<Tile>) -> Seq<Tile>
    decreases s.len(),
{
    if s.len() == 0 {
        Seq::<Tile>::empty()
    } else {
        insert_by_start(sort_by_start(s.drop_last()), s.last())
    }
}

pub open spec fn sorted_by_start(s: Seq<Tile>) -> bool {
    forall|i: int, j: int|
        0 <= i < j < s.len() ==> #[trigger] s[i].spec_start_x() <= #[trigger] s[j].spec_start_x()
}

/// Every pixel of a run of tiles, tile by tile in run order.
pub open spec fn tiles_pixels(s: Seq<Tile>) -> Seq<Pixel>
    decreases s.len(),
{
    if s.len() == 0 {
        Seq::<Pixel>::empty()
    } else {
        tiles_pixels(s.drop_last()) + s.last().spec_image().pixels()
    }
}

/// How many pixels a run of tiles holds in all.
pub open spec fn total_pixels(s: Seq<Tile>) -> int
    decreases s.len(),
{
    if s.len() == 0 {
        0
    } else {
        total_pixels(s.drop_last()) + s.last().spec_image().pixels().len()
    }
}

proof fn lemma_tiles_pixels_len(s: Seq<Tile>)
    ensures
        tiles_pixels(s).len() == total_pixels(s),
        total_pixels(s) >= 0,
    decreases s.len(),
{
    if s.len() > 0 {
        lemma_tiles_pixels_len(s.drop_last());
    }
}

proof fn lemma_total_pixels_insert(s: Seq<Tile>, t: Tile)
    ensures
        total_pixels(insert_by_start(s, t)) == total_pixels(s) + t.spec_image().pixels().len(),
    decreases s.len(),
{
    let r = insert_by_start(s, t);
    if s.len() == 0 {
        assert(r =~= seq![t]);
        assert(r.drop_last() =~= Seq::<Tile>::empty());
        assert(total_pixels(r) == total_pixels(r.drop_last())
            + r.last().spec_image().pixels().len());
    } else if s.last().spec_start_x() > t.spec_start_x() {
        lemma_total_pixels_insert(s.drop_last(), t);
        let inner = insert_by_start(s.drop_last(), t);
        assert(r == inner.push(s.last()));
        assert(r.drop_last() =~= inner);
        assert(r.last() == s.last());
        assert(total_pixels(r) == total_pixels(inner)
            + s.last().spec_image().pixels().len());
        assert(total_pixels(s) == total_pixels(s.drop_last())
            + s.last().spec_image().pixels().len());
    } else {
        assert(r == s.push(t));
        assert(r.drop_last() =~= s);
        assert(r.last() == t);
        assert(total_pixels(r) == total_pixels(s) + t.spec_image().pixels().len());
    }
}

proof fn lemma_total_pixels_sort(s: Seq<Tile>)
    ensures
        total_pixels(sort_by_start(s)) == total_pixels(s),
    decreases s.len(),
{
    if s.len() > 0 {
        lemma_total_pixels_sort(s.drop_last());
        lemma_total_pixels_insert(sort_by_start(s.drop_last()), s.last());
    }
}

proof fn lemma_insert_by_start_at(s: Seq<Tile>, t: Tile, pos: int)
    requires
        0 <= pos <= s.len(),
        forall|m: int|
            pos <= m < s.len() ==> (#[trigger] s[m]).spec_start_x() > t.spec_start_x(),
        pos > 0 ==> s[pos - 1].spec_start_x() <= t.spec_start_x(),
    ensures
        insert_by_start(s, t) == s.insert(pos, t),
    decreases s.len(),
{
    if pos == s.len() {
        assert(insert_by_start(s, t) =~= s.insert(pos, t));
    } else {
        assert(s[s.len() - 1].spec_start_x() > t.spec_start_x());
        lemma_insert_by_start_at(s.drop_last(), t, pos);
        assert(insert_by_start(s.drop_last(), t).push(s.last()) =~= s.insert(pos, t));
    }
}

fn insert_tile(run: &mut Vec<Tile>, t: Tile)
    ensures
        final(run)@ == insert_by_start(old(run)@, t),
{
    let key = t.start_x();
    let mut j: usize = run.len();
    while j > 0 && run[j - 1].start_x() > key
        invariant
            j <= run@.len(),
            key == t.spec_start_x(),
            forall|m: int|
                j <= m < run@.len() ==> (#[trigger] run@[m]).spec_start_x() > t.spec_start_x(),
        decreases j,
    {
        j -= 1;
    }
    proof {
        lemma_insert_by_start_at(run@, t, j as int);
    }
    run.insert(j, t);
}

fn sort_tiles(tiles: Vec<Tile>) -> (run: Vec<Tile>)
    ensures
        run@ == sort_by_start(tiles@),
{
    let ghost orig = tiles@;
    let mut rest = tiles;
    let mut run: Vec<Tile> = Vec::new();
    while rest.len() > 0
        invariant
            rest@.len() <= orig.len(),
            rest@ == orig.skip(orig.len() - rest@.len()),
            run@ == sort_by_start(orig.take(orig.len() - rest@.len())),
        decreases rest@.len(),
    {
        let ghost k = orig.len() - rest@.len();
        let t = rest.remove(0);
        proof {
            assert(t == orig[k]);
            assert(rest@ =~= orig.skip(k + 1));
            assert(orig.take(k + 1).drop_last() =~= orig.take(k));
            assert(orig.take(k + 1).last() == orig[k]);
        }
        insert_tile(&mut run, t);
    }
    proof {
        assert(orig.take(orig.len() as int) =~= orig);
    }
    run
}

proof fn lemma_insert_by_start_multiset(s: Seq<Tile>, t: Tile)
    ensures
        insert_by_start(s, t).to_multiset() == s.to_multiset().insert(t),
    decreases s.len(),
{
    broadcast use vstd::seq_lib::group_to_multiset_ensures;
    broadcast use vstd::multiset::group_multiset_axioms;

    let r = insert_by_start(s, t);
    if s.len() == 0 {
        assert(r == Seq::<Tile>::empty().push(t));
        assert(Seq::<Tile>::empty().to_multiset() =~= Multiset::<Tile>::empty());
        assert(r.to_multiset() =~= s.to_multiset().insert(t));
    } else if s.last().spec_start_x() > t.spec_start_x() {
        lemma_insert_by_start_multiset(s.drop_last(), t);
        let inner = insert_by_start(s.drop_last(), t);
        assert(r == inner.push(s.last()));
        assert(s.drop_last().push(s.last()) =~= s);
        assert(s.to_multiset() == s.drop_last().to_multiset().insert(s.last()));
        assert(r.to_multiset() == s.drop_last().to_multiset().insert(t).insert(s.last()));
        assert(s.drop_last().to_multiset().insert(t).insert(s.last())
            =~= s.drop_last().to_multiset().insert(s.last()).insert(t));
    } else {
        assert(r == s.push(t));
        assert(r.to_multiset() =~= s.to_multiset().insert(t));
    }
}

/// Sorting by start row rearranges the tiles and loses or invents none:
/// the sorted run holds exactly the tiles that went in.
pub proof fn lemma_sort_by_start_multiset(s: Seq<Tile>)
    ensures
        sort_by_start(s).to_multiset() == s.to_multiset(),
    decreases s.len(),
{
    broadcast use vstd::seq_lib::group_to_multiset_ensures;

    if s.len() > 0 {
        lemma_sort_by_start_multiset(s.drop_last());
        lemma_insert_by_start_multiset(sort_by_start(s.drop_last()), s.last());
        assert(s.drop_last().push(s.last()) =~= s);
        assert(s.to_multiset() == s.drop_last().to_multiset().insert(s.last()));
    }
}

proof fn lemma_insert_by_start_sorted(s: Seq<Tile>, t: Tile)
    requires
        sorted_by_start(s),
    ensures
        sorted_by_start(insert_by_start(s, t)),
    decreases s.len(),
{
    broadcast use vstd::seq_lib::group_to_multiset_ensures;
    broadcast use vstd::multiset::group_multiset_axioms;

    let r = insert_by_start(s, t);
    if s.len() == 0 {
        assert(sorted_by_start(r));
    } else if s.last().spec_start_x() > t.spec_start_x() {
        let top = s.last().spec_start_x();
        assert forall|i: int, j: int| 0 <= i < j < s.drop_last().len() implies (
        #[trigger] s.drop_last()[i]).spec_start_x() <= (#[trigger] s.drop_last()[j]).spec_start_x() by {
            assert(s[i].spec_start_x() <= s[j].spec_start_x());
        }
        lemma_insert_by_start_sorted(s.drop_last(), t);
        lemma_insert_by_start_multiset(s.drop_last(), t);
        let inner = insert_by_start(s.drop_last(), t);
        assert(r == inner.push(s.last()));
        assert forall|i: int| 0 <= i < inner.len() implies (
        #[trigger] inner[i]).spec_start_x() <= top by {
            let e = inner[i];
            assert(inner.to_multiset().count(e) > 0);
            if e == t {
            } else {
                assert(s.drop_last().to_multiset().count(e) > 0);
                assert(s.drop_last().contains(e));
                let j = choose|j: int| 0 <= j < s.drop_last().len() && s.drop_last()[j] == e;
                assert(s[j].spec_start_x() <= s[s.len() - 1].spec_start_x());
            }
        }
        assert forall|i: int, j: int| 0 <= i < j < r.len() implies (
        #[trigger] r[i]).spec_start_x() <= (#[trigger] r[j]).spec_start_x() by {
            if j < r.len() - 1 {
                assert(inner[i].spec_start_x() <= inner[j].spec_start_x());
            } else {
                assert(r[i] == inner[i]);
                assert(inner[i].spec_start_x() <= top);
            }
        }
    } else {
        assert(r == s.push(t));
        assert forall|i: int, j: int| 0 <= i < j < r.len() implies (
        #[trigger] r[i]).spec_start_x() <= (#[trigger] r[j]).spec_start_x() by {
            if j < r.len() - 1 {
                assert(s[i].spec_start_x() <= s[j].spec_start_x());
            } else {
                if i < s.len() - 1 {
                    assert(s[i].spec_start_x() <= s[s.len() - 1].spec_start_x());
                }
            }
        }
    }
}

/// Sorting by start row orders the tiles by start row.
pub proof fn lemma_sort_by_start_sorted(s: Seq<Tile>)
    ensures
        sorted_by_start(sort_by_start(s)),
    decreases s.len(),
{
    if s.len() == 0 {
        assert(sorted_by_start(sort_by_start(s)));
    } else {
        lemma_sort_by_start_sorted(s.drop_last());
        lemma_insert_by_start_sorted(sort_by_start(s.drop_last()), s.last());
    }
}

/// Where band `k` of a run of tiles starts: the total height of the bands
/// before it.
pub open spec fn band_start(s: Seq<Tile>, k: int) -> int
    decreases k,
{
    if k <= 0 {
        0
    } else {
        band_start(s, k - 1) + s[k - 1].spec_image().spec_height()
    }
}

/// The run of tiles is, in order, a partition of a `width x height` raster
/// into horizontal bands: every tile is a well-formed full-width band at
/// column 0 whose start row is the total height of the bands before it, and
/// the bands together cover the raster's rows exactly.
pub open spec fn is_band_partition(s: Seq<Tile>, width: int, height: int) -> bool {
    &&& forall|k: int| 0 <= k < s.len() ==> (#[trigger] s[k]).wf()
    &&& forall|k: int| 0 <= k < s.len() ==> (#[trigger] s[k]).spec_start_y() == 0
    &&& forall|k: int|
        0 <= k < s.len() ==> (#[trigger] s[k]).spec_image().spec_width() == width
    &&& forall|k: int| 0 <= k < s.len() ==> (#[trigger] s[k]).spec_start_x() == band_start(s, k)
    &&& band_start(s, s.len() as int) == height
}

/// Tile `t` holds exactly the pixels `f` assigns to its rows of the full
/// image: for an image row `x` the tile covers, its local row `x - start_x`
/// holds `f(x, c)` at every column `c`.
pub open spec fn tile_matches(t: Tile, width: int, f: spec_fn(int, int) -> Pixel) -> bool {
    forall|x: int, c: int|
        t.spec_start_x() <= x < t.spec_start_x() + t.spec_image().spec_height() && 0 <= c < width
            ==> t.spec_image().pixels()[(x - t.spec_start_x()) * width + c] == #[trigger] f(x, c)
}

/// The row-major pixel buffer of the `width x height` image whose pixel at
/// row `x`, column `y` is `f(x, y)`.
pub open spec fn image_of(width: int, height: int, f: spec_fn(int, int) -> Pixel) -> Seq<Pixel> {
    Seq::new((width * height) as nat, |i: int| f(i / width, i % width))
}

proof fn lemma_band_start_drop_last(s: Seq<Tile>, k: int)
    requires
        s.len() > 0,
        0 <= k < s.len(),
    ensures
        band_start(s.drop_last(), k) == band_start(s, k),
    decreases k,
{
    if k > 0 {
        lemma_band_start_drop_last(s, k - 1);
    }
}

proof fn lemma_band_start_monotone(s: Seq<Tile>, i: int, j: int)
    requires
        0 <= i <= j <= s.len(),
    ensures
        band_start(s, i) <= band_start(s, j),
    decreases j - i,
{
    if i < j {
        lemma_band_start_monotone(s, i, j - 1);
    }
}

proof fn lemma_band_concat(s: Seq<Tile>, width: int, height: int, f: spec_fn(int, int) -> Pixel)
    requires
        width > 0,
        is_band_partition(s, width, height),
        forall|k: int| 0 <= k < s.len() ==> tile_matches(#[trigger] s[k], width, f),
    ensures
        tiles_pixels(s).len() == width * height,
        forall|x: int, y: int|
            0 <= x < height && 0 <= y < width ==> tiles_pixels(s)[x * width + y] == #[trigger] f(
                x,
                y,
            ),
    decreases s.len(),
{
    if s.len() == 0 {
        assert(height == 0);
    } else {
        let prior = s.drop_last();
        let last = s.last();
        let split = band_start(s, s.len() - 1);
        let last_height = last.spec_image().spec_height() as int;
        lemma_band_partition_drop_last(s, width, height);
        assert(height == split + last_height);
        assert forall|k: int| 0 <= k < prior.len() implies tile_matches(
            #[trigger] prior[k],
            width,
            f,
        ) by {
            assert(prior[k] == s[k]);
        }
        lemma_band_concat(prior, width, split, f);
        assert(tiles_pixels(s) == tiles_pixels(prior) + last.spec_image().pixels());
        assert(last.spec_image().pixels().len() == width * last_height);
        assert(tiles_pixels(s).len() == width * height) by {
            vstd::arithmetic::mul::lemma_mul_is_distributive_add(width, split, last_height);
        }
        assert(last.spec_start_x() == split);
        lemma_band_start_monotone(s, 0, s.len() - 1);
        assert forall|x: int, y: int| 0 <= x < height && 0 <= y < width implies tiles_pixels(
            s,
        )[x * width + y] == #[trigger] f(x, y) by {
            vstd::arithmetic::mul::lemma_mul_is_commutative(width, split);
            vstd::arithmetic::mul::lemma_mul_is_commutative(width, last_height);
            if x < split {
                vstd::arithmetic::mul::lemma_mul_inequality(x + 1, split, width);
                vstd::arithmetic::mul::lemma_mul_is_distributive_add_other_way(width, x, 1);
                assert(x * width + y < split * width);
                assert(tiles_pixels(s)[x * width + y] == tiles_pixels(prior)[x * width + y]);
            } else {
                let r = x - split;
                assert(0 <= r < last_height);
                assert(x * width + y == split * width + (r * width + y)) by {
                    vstd::arithmetic::mul::lemma_mul_is_distributive_add_other_way(
                        width,
                        split,
                        r,
                    );
                }
                assert(0 <= r * width + y < last_height * width) by {
                    vstd::arithmetic::mul::lemma_mul_inequality(r + 1, last_height, width);
                    vstd::arithmetic::mul::lemma_mul_is_distributive_add_other_way(width, r, 1);
                    vstd::arithmetic::mul::lemma_mul_nonnegative(r, width);
                }
                assert(tiles_pixels(s)[x * width + y] == last.spec_image().pixels()[r * width
                    + y]);
                assert(last.spec_image().pixels()[(x - split) * width + y] == f(x, y));
            }
        }
    }
}

proof fn lemma_sorted_multiset_unique(u: Seq<Tile>, v: Seq<Tile>)
    requires
        u.to_multiset() == v.to_multiset(),
        sorted_by_start(u),
        forall|i: int, j: int|
            0 <= i < j < v.len() ==> (#[trigger] v[i]).spec_start_x() < (
            #[trigger] v[j]).spec_start_x(),
    ensures
        u == v,
    decreases v.len(),
{
    broadcast use vstd::seq_lib::group_to_multiset_ensures;
    broadcast use vstd::multiset::group_multiset_axioms;

    assert(u.to_multiset().len() == u.len());
    assert(v.to_multiset().len() == v.len());
    if v.len() == 0 {
        assert(u =~= v);
    } else {
        let top = v.last();
        assert(v.contains(top));
        assert(u.to_multiset().count(top) > 0);
        assert(u.contains(top));
        let i = choose|i: int| 0 <= i < u.len() && u[i] == top;
        assert(u[i].spec_start_x() <= u[u.len() - 1].spec_start_x()) by {
            if i < u.len() - 1 {
                assert(u[i].spec_start_x() <= u[u.len() - 1].spec_start_x());
            }
        }
        assert(v.to_multiset().count(u.last()) > 0);
        assert(v.contains(u.last()));
        let j = choose|j: int| 0 <= j < v.len() && v[j] == u.last();
        assert(v[j].spec_start_x() <= v[v.len() - 1].spec_start_x()) by {
            if j < v.len() - 1 {
                assert(v[j].spec_start_x() < v[v.len() - 1].spec_start_x());
            }
        }
        assert(u.last().spec_start_x() == top.spec_start_x());
        assert(j == v.len() - 1) by {
            if j < v.len() - 1 {
                assert(v[j].spec_start_x() < v[v.len() - 1].spec_start_x());
            }
        }
        assert(u.last() == top);
        assert(u.drop_last() =~= u.remove(u.len() - 1));
        assert(v.drop_last() =~= v.remove(v.len() - 1));
        assert(u.drop_last().to_multiset() == u.to_multiset().remove(top));
        assert(v.drop_last().to_multiset() == v.to_multiset().remove(top));
        assert forall|a: int, b: int| 0 <= a < b < u.drop_last().len() implies (
        #[trigger] u.drop_last()[a]).spec_start_x() <= (
        #[trigger] u.drop_last()[b]).spec_start_x() by {
            assert(u[a].spec_start_x() <= u[b].spec_start_x());
        }
        assert forall|a: int, b: int| 0 <= a < b < v.drop_last().len() implies (
        #[trigger] v.drop_last()[a]).spec_start_x() < (
        #[trigger] v.drop_last()[b]).spec_start_x() by {
            assert(v[a].spec_start_x() < v[b].spec_start_x());
        }
        lemma_sorted_multiset_unique(u.drop_last(), v.drop_last());
        assert(u =~= u.drop_last().push(u.last()));
        assert(v =~= v.drop_last().push(v.last()));
    }
}

/// A tile with at least one row of pixels.
pub open spec fn is_solid(t: Tile) -> bool {
    t.spec_image().spec_height() > 0
}

/// The tiles of a run that hold any rows at all, in run order.
pub open spec fn solid_tiles(s: Seq<Tile>) -> Seq<Tile>
    decreases s.len(),
{
    if s.len() == 0 {
        Seq::<Tile>::empty()
    } else if is_solid(s.last()) {
        solid_tiles(s.drop_last()).push(s.last())
    } else {
        solid_tiles(s.drop_last())
    }
}

spec fn solid_part(m: Multiset<Tile>) -> Multiset<Tile> {
    m.filter(|t: Tile| is_solid(t))
}

proof fn lemma_solid_tiles_multiset(s: Seq<Tile>)
    ensures
        solid_tiles(s).to_multiset() == solid_part(s.to_multiset()),
    decreases s.len(),
{
    broadcast use vstd::seq_lib::group_to_multiset_ensures;
    broadcast use vstd::multiset::group_multiset_axioms;

    if s.len() == 0 {
        assert(s.to_multiset() =~= Multiset::<Tile>::empty());
        assert(solid_tiles(s).to_multiset() =~= solid_part(s.to_multiset()));
    } else {
        lemma_solid_tiles_multiset(s.drop_last());
        let prior = s.drop_last().to_multiset();
        assert(s.drop_last().push(s.last()) =~= s);
        assert(s.to_multiset() == prior.insert(s.last()));
        if is_solid(s.last()) {
            assert(solid_tiles(s).to_multiset() == solid_part(prior).insert(s.last()));
            assert(solid_part(prior).insert(s.last()) =~= solid_part(prior.insert(s.last())));
        } else {
            assert(solid_part(prior) =~= solid_part(prior.insert(s.last())));
        }
    }
}

proof fn lemma_solid_tiles_pixels(s: Seq<Tile>)
    requires
        forall|k: int| 0 <= k < s.len() ==> (#[trigger] s[k]).wf(),
    ensures
        tiles_pixels(solid_tiles(s)) == tiles_pixels(s),
    decreases s.len(),
{
    if s.len() > 0 {
        assert forall|k: int| 0 <= k < s.drop_last().len() implies (
        #[trigger] s.drop_last()[k]).wf() by {
            assert(s[k].wf());
        }
        lemma_solid_tiles_pixels(s.drop_last());
        if is_solid(s.last()) {
            let inner = solid_tiles(s.drop_last());
            assert(inner.push(s.last()).drop_last() =~= inner);
            assert(inner.push(s.last()).last() == s.last());
        } else {
            assert(s[s.len() - 1].wf());
            assert(s.last().spec_image().pixels().len() == s.last().spec_image().spec_width()
                * 0);
            assert(s.last().spec_image().pixels() =~= Seq::<Pixel>::empty());
            assert(tiles_pixels(s) =~= tiles_pixels(s.drop_last()));
        }
    }
}

proof fn lemma_solid_tiles_key_bound(s: Seq<Tile>, bound: int)
    requires
        forall|k: int| 0 <= k < s.len() ==> (#[trigger] s[k]).spec_start_x() <= bound,
    ensures
        forall|k: int|
            0 <= k < solid_tiles(s).len() ==> (#[trigger] solid_tiles(s)[k]).spec_start_x()
                <= bound,
    decreases s.len(),
{
    if s.len() > 0 {
        assert forall|k: int| 0 <= k < s.drop_last().len() implies (
        #[trigger] s.drop_last()[k]).spec_start_x() <= bound by {
            assert(s[k].spec_start_x() <= bound);
        }
        lemma_solid_tiles_key_bound(s.drop_last(), bound);
        if is_solid(s.last()) {
            let r = solid_tiles(s.drop_last()).push(s.last());
            assert(s[s.len() - 1].spec_start_x() <= bound);
            assert forall|k: int| 0 <= k < r.len() implies (#[trigger] r[k]).spec_start_x()
                <= bound by {
                if k < r.len() - 1 {
                    assert(solid_tiles(s.drop_last())[k].spec_start_x() <= bound);
                }
            }
        }
    }
}

proof fn lemma_solid_tiles_sorted(s: Seq<Tile>)
    requires
        sorted_by_start(s),
    ensures
        sorted_by_start(solid_tiles(s)),
    decreases s.len(),
{
    if s.len() > 0 {
        assert forall|i: int, j: int| 0 <= i < j < s.drop_last().len() implies (
        #[trigger] s.drop_last()[i]).spec_start_x() <= (
        #[trigger] s.drop_last()[j]).spec_start_x() by {
            assert(s[i].spec_start_x() <= s[j].spec_start_x());
        }
        lemma_solid_tiles_sorted(s.drop_last());
        if is_solid(s.last()) {
            let inner = solid_tiles(s.drop_last());
            let r = inner.push(s.last());
            assert forall|k: int| 0 <= k < s.drop_last().len() implies (
            #[trigger] s.drop_last()[k]).spec_start_x() <= s.last().spec_start_x() by {
                if k < s.len() - 1 {
                    assert(s[k].spec_start_x() <= s[s.len() - 1].spec_start_x());
                }
            }
            lemma_solid_tiles_key_bound(s.drop_last(), s.last().spec_start_x() as int);
            assert forall|i: int, j: int| 0 <= i < j < r.len() implies (
            #[trigger] r[i]).spec_start_x() <= (#[trigger] r[j]).spec_start_x() by {
                if j < r.len() - 1 {
                    assert(inner[i].spec_start_x() <= inner[j].spec_start_x());
                } else {
                    assert(r[i] == inner[i]);
                }
            }
        }
    }
}

proof fn lemma_solid_tiles_matches(s: Seq<Tile>, width: int, f: spec_fn(int, int) -> Pixel)
    requires
        forall|k: int| 0 <= k < s.len() ==> tile_matches(#[trigger] s[k], width, f),
    ensures
        forall|k: int|
            0 <= k < solid_tiles(s).len() ==> tile_matches(#[trigger] solid_tiles(s)[k], width, f),
    decreases s.len(),
{
    if s.len() > 0 {
        assert forall|k: int| 0 <= k < s.drop_last().len() implies tile_matches(
            #[trigger] s.drop_last()[k],
            width,
            f,
        ) by {
            assert(tile_matches(s[k], width, f));
        }
        lemma_solid_tiles_matches(s.drop_last(), width, f);
        if is_solid(s.last()) {
            let r = solid_tiles(s.drop_last()).push(s.last());
            assert(tile_matches(s[s.len() - 1], width, f));
            assert forall|k: int| 0 <= k < r.len() implies tile_matches(
                #[trigger] r[k],
                width,
                f,
            ) by {
                if k < r.len() - 1 {
                    assert(tile_matches(solid_tiles(s.drop_last())[k], width, f));
                }
            }
        }
    }
}

proof fn lemma_band_partition_drop_last(s: Seq<Tile>, width: int, height: int)
    requires
        s.len() > 0,
        is_band_partition(s, width, height),
    ensures
        is_band_partition(s.drop_last(), width, band_start(s, s.len() - 1)),
        height == band_start(s, s.len() - 1) + s.last().spec_image().spec_height(),
{
    let prior = s.drop_last();
    assert forall|k: int| 0 <= k < prior.len() implies (#[trigger] prior[k]).spec_start_x()
        == band_start(prior, k) by {
        lemma_band_start_drop_last(s, k);
        assert(prior[k] == s[k]);
    }
    lemma_band_start_drop_last(s, s.len() - 1);
}

proof fn lemma_solid_tiles_partition(s: Seq<Tile>, width: int, height: int)
    requires
        is_band_partition(s, width, height),
    ensures
        is_band_partition(solid_tiles(s), width, height),
        forall|k: int| 0 <= k < solid_tiles(s).len() ==> is_solid(#[trigger] solid_tiles(s)[k]),
    decreases s.len(),
{
    if s.len() == 0 {
        assert(height == 0);
    } else {
        let split = band_start(s, s.len() - 1);
        lemma_band_partition_drop_last(s, width, height);
        lemma_solid_tiles_partition(s.drop_last(), width, split);
        let inner = solid_tiles(s.drop_last());
        if is_solid(s.last()) {
            let r = inner.push(s.last());
            assert forall|k: int| 0 <= k < r.len() implies (#[trigger] r[k]).spec_start_x()
                == band_start(r, k) by {
                assert(r.drop_last() =~= inner);
                lemma_band_start_drop_last(r, k);
                if k < inner.len() {
                    assert(r[k] == inner[k]);
                } else {
                    assert(r[k] == s.last());
                    assert(s.last().spec_start_x() == split);
                    assert(band_start(inner, inner.len() as int) == split);
                }
            }
            assert(r.drop_last() =~= inner);
            lemma_band_start_drop_last(r, r.len() - 1);
            assert(band_start(r, r.len() as int) == band_start(r, r.len() - 1) + r[r.len()
                - 1].spec_image().spec_height());
            assert(band_start(r, r.len() as int) == height);
        } else {
            assert(height == split);
        }
    }
}

/// A run of tiles that partitions a `width x height` raster into bands
/// holds exactly one pixel per raster position.
pub proof fn lemma_band_partition_total_pixels(s: Seq<Tile>, width: int, height: int)
    requires
        is_band_partition(s, width, height),
    ensures
        total_pixels(s) == width * height,
    decreases s.len(),
{
    if s.len() == 0 {
        assert(height == 0);
    } else {
        let split = band_start(s, s.len() - 1);
        let last_height = s.last().spec_image().spec_height() as int;
        lemma_band_partition_drop_last(s, width, height);
        lemma_band_partition_total_pixels(s.drop_last(), width, split);
        assert(s[s.len() - 1].wf());
        assert(s.last().spec_image().pixels().len() == width * last_height);
        assert(width * split + width * last_height == width * height) by {
            vstd::arithmetic::mul::lemma_mul_is_distributive_add(width, split, last_height);
        }
    }
}

/// Law of tile reassembly: splitting a render into bands loses nothing and
/// does not depend on the order the bands come back in. If a run `bands` of
/// tiles partitions a `width x height` raster into horizontal bands and
/// every band holds exactly the pixels `f` assigns to its rows, then
/// sorting any reordering `tiles` of those bands by start row and
/// concatenating their buffers — what `Image::from_tiles` ensures it
/// returns — yields exactly the row-major buffer of `f`, the buffer a
/// direct whole-image render of `f` would fill.
pub proof fn lemma_tile_reassembly(
    tiles: Seq<Tile>,
    bands: Seq<Tile>,
    width: int,
    height: int,
    f: spec_fn(int, int) -> Pixel,
)
    requires
        width > 0,
        tiles.to_multiset() == bands.to_multiset(),
        is_band_partition(bands, width, height),
        forall|k: int| 0 <= k < bands.len() ==> tile_matches(#[trigger] bands[k], width, f),
    ensures
        tiles_pixels(sort_by_start(tiles)) == image_of(width, height, f),
{
    broadcast use vstd::seq_lib::group_to_multiset_ensures;

    let run = sort_by_start(tiles);
    lemma_sort_by_start_sorted(tiles);
    lemma_sort_by_start_multiset(tiles);
    // every tile that came back is one of the bands, hence well-formed
    assert forall|k: int| 0 <= k < run.len() implies (#[trigger] run[k]).wf() by {
        assert(run.to_multiset().count(run[k]) > 0);
        assert(bands.contains(run[k]));
        let j = choose|j: int| 0 <= j < bands.len() && bands[j] == run[k];
        assert(bands[j].wf());
    }
    // zero-height bands hold no pixels: drop them on both sides
    let su = solid_tiles(run);
    let sb = solid_tiles(bands);
    lemma_solid_tiles_pixels(run);
    lemma_solid_tiles_sorted(run);
    lemma_solid_tiles_multiset(run);
    lemma_solid_tiles_multiset(bands);
    assert(su.to_multiset() == sb.to_multiset());
    lemma_solid_tiles_partition(bands, width, height);
    lemma_solid_tiles_matches(bands, width, f);
    assert forall|i: int, j: int| 0 <= i < j < sb.len() implies (
    #[trigger] sb[i]).spec_start_x() < (#[trigger] sb[j]).spec_start_x() by {
        lemma_band_start_monotone(sb, i + 1, j);
        assert(band_start(sb, i + 1) == band_start(sb, i) + sb[i].spec_image().spec_height());
    }
    lemma_sorted_multiset_unique(su, sb);
    lemma_band_concat(sb, width, height, f);
    let built = tiles_pixels(run);
    let direct = image_of(width, height, f);
    assert forall|i: int| 0 <= i < built.len() implies built[i] == direct[i] by {
        vstd::arithmetic::div_mod::lemma_fundamental_div_mod(i, width);
        vstd::arithmetic::div_mod::lemma_mod_bound(i, width);
        let x = i / width;
        let y = i % width;
        assert(0 <= x < height) by (nonlinear_arith)
            requires
                i == width * x + y,
                0 <= y < width,
                0 <= i < width * height,
                width > 0,
        ;
        assert(x * width + y == i) by {
            vstd::arithmetic::mul::lemma_mul_is_commutative(x, width);
        }
        assert(built[x * width + y] == f(x, y));
    }
    assert(built =~= direct);
}

impl Image {
    /// Reassembles a full image out of the bands that tiled it: the tiles
    /// are sorted by start row and their pixel buffers concatenated.
    pub fn from_tiles(width: u32, height: u32, tiles: Vec<Tile>) -> (image: Image)
        requires
            width * height <= u32::MAX,
            total_pixels(tiles@) == width * height,
        ensures
            image.wf(),
            image.spec_width() == width,
            image.spec_height() == height,
            image.pixels() == tiles_pixels(sort_by_start(tiles@)),
    {
        let ghost orig = tiles@;
        // Sort tiles by starting line
        let mut sorted = sort_tiles(tiles);
        let ghost run = sort_by_start(orig);

        let capacity = width * height;
        let mut pixelmap: Vec<Pixel> = Vec::with_capacity(capacity as usize);

        while sorted.len() > 0
            invariant
                sorted@.len() <= run.len(),
                sorted@ == run.skip(run.len() - sorted@.len()),
                pixelmap@ == tiles_pixels(run.take(run.len() - sorted@.len())),
            decreases sorted@.len(),
        {
            let ghost m = run.len() - sorted@.len();
            let tile = sorted.remove(0);
            proof {
                assert(tile == run[m]);
                assert(sorted@ =~= run.skip(m + 1));
                assert(run.take(m + 1).drop_last() =~= run.take(m));
                assert(run.take(m + 1).last() == run[m]);
            }
            let tile_image = tile.extract_image();
            let Image { width: _, height: _, pixelmap: mut pixel } = tile_image;
            pixelmap.append(&mut pixel);
        }
        proof {
            assert(run.take(run.len() as int) =~= run);
            lemma_tiles_pixels_len(run);
            lemma_total_pixels_sort(orig);
        }
        Image { width, height, pixelmap }
    }
}

} // verus!
