use vstd::prelude::*;

verus! {

/// A surface that pixels are rendered into.
pub trait RenderTraget {
    spec fn resolution(&self) -> (u32, u32);

    /// Width and height in pixels.
    fn get_resolution(&self) -> (r: (u32, u32))
        ensures
            r == self.resolution(),
    ;
}

/// Row-major buffer of `width * height` pixels.
#[derive(Debug, Clone)]
pub struct Image<P> {
    pub pixels: Vec<P>,
    pub width: u32,
    pub height: u32,
}

/// Number of tiles of size `tile` needed to cover `n` pixels.
pub open spec fn tile_count(n: int, tile: int) -> int {
    if n % tile == 0 { n / tile } else { n / tile + 1 }
}

/// The tile in row `row` and column `col` when a `w` by `h` image is cut
/// into tiles of `tw` by `th`; the last row and column are clipped.
pub open spec fn tile(w: u32, h: u32, tw: u32, th: u32, row: int, col: int) -> ImageView {
    let ox = col * tw;
    let oy = row * th;
    ImageView {
        source_width: w,
        source_height: h,
        offset_x: ox as u32,
        offset_y: oy as u32,
        width: (if tw <= w - ox { tw as int } else { w - ox }) as u32,
        height: (if th <= h - oy { th as int } else { h - oy }) as u32,
    }
}

impl<P> Image<P> {
    pub open spec fn wf(&self) -> bool {
        self.pixels@.len() == self.width * self.height
    }

    /// Buffer position of the pixel in row `i`, column `j`.
    pub open spec fn offset(&self, i: int, j: int) -> int {
        i * self.width + j
    }
}

impl<P: Copy> Image<P> {
    /// An image of the given size with every pixel set to `color`.
    pub fn new(color: P, width: u32, height: u32) -> (r: Image<P>)
        requires
            width * height <= usize::MAX,
        ensures
            r.wf(),
            r.width == width,
            r.height == height,
            forall|k: int| 0 <= k < r.pixels@.len() ==> r.pixels@[k] == color,
    {
        let count = width as usize * height as usize;
        let mut pixels: Vec<P> = Vec::new();
        let mut k: usize = 0;
        while k < count
            invariant
                k <= count,
                pixels@.len() == k,
                forall|q: int| 0 <= q < k ==> pixels@[q] == color,
            decreases count - k,
        {
            pixels.push(color);
            k = k + 1;
        }
        Image { pixels, width, height }
    }

    /// Sets every pixel to `color`.
    pub fn fill(&mut self, color: P)
        ensures
            final(self).width == old(self).width,
            final(self).height == old(self).height,
            final(self).pixels@.len() == old(self).pixels@.len(),
            forall|k: int| 0 <= k < final(self).pixels@.len() ==> final(self).pixels@[k] == color,
    {
        let mut k: usize = 0;
        while k < self.pixels.len()
            invariant
                k <= self.pixels@.len(),
                self.width == old(self).width,
                self.height == old(self).height,
                self.pixels@.len() == old(self).pixels@.len(),
                forall|q: int| 0 <= q < k ==> self.pixels@[q] == color,
            decreases self.pixels@.len() - k,
        {
            self.pixels.set(k, color);
            k = k + 1;
        }
    }

    /// The pixel buffer, row by row.
    pub fn get_pixels(&self) -> (r: &Vec<P>)
        ensures
            r@ == self.pixels@,
    {
        &self.pixels
    }

    /// The pixel at `[row, column]`.
    pub fn get(&self, pixel: [usize; 2]) -> (r: P)
        requires
            self.wf(),
            pixel[0] < self.height,
            pixel[1] < self.width,
        ensures
            r == self.pixels@[self.offset(pixel[0] as int, pixel[1] as int)],
    {
        let k = self.buffer_index(pixel);
        self.pixels[k]
    }

    /// Replaces the pixel at `[row, column]`.
    pub fn set(&mut self, pixel: [usize; 2], value: P)
        requires
            old(self).wf(),
            pixel[0] < old(self).height,
            pixel[1] < old(self).width,
        ensures
            final(self).width == old(self).width,
            final(self).height == old(self).height,
            final(self).pixels@ == old(self).pixels@.update(old(self).offset(pixel[0] as int, pixel[1] as int), value),
    {
        let k = self.buffer_index(pixel);
        self.pixels.set(k, value);
    }

    fn buffer_index(&self, pixel: [usize; 2]) -> (k: usize)
        requires
            self.wf(),
            pixel[0] < self.height,
            pixel[1] < self.width,
        ensures
            k == self.offset(pixel[0] as int, pixel[1] as int),
            k < self.pixels@.len(),
    {
        let i = pixel[0];
        let j = pixel[1];
        let w = self.width as usize;
        let n = self.pixels.len();
        proof {
            let h = self.height as int;
            assert(i * w + j < h * w) by (nonlinear_arith)
                requires i < h, j < w;
            assert(h * w == n);
        }
        i * w + j
    }

    /// A window of the image, `width` by `height` pixels from column
    /// `offset_x` of row `offset_y`.
    pub fn view(&self, offset_x: u32, offset_y: u32, width: u32, height: u32) -> (r: ImageView)
        requires
            offset_x + width <= self.width,
            offset_y + height <= self.height,
        ensures
            r == (ImageView {
                source_width: self.width,
                source_height: self.height,
                offset_x,
                offset_y,
                width,
                height,
            }),
            r.wf(),
    {
        ImageView { source_width: self.width, source_height: self.height, offset_x, offset_y, width, height }
    }

    /// The tiles of `width` by `height` pixels that cover the image, in row-major
    /// order; the last row and column are clipped to the image edge.
    pub fn split_tiles(&self, width: u32, height: u32) -> (r: TileIterator)
        requires
            width > 0,
            height > 0,
        ensures
            r.wf(),
            r.source_width() == self.width,
            r.source_height() == self.height,
            r.tile_width() == width,
            r.tile_height() == height,
            r.row() == 0,
            r.col() == 0,
    {
        proof {
            lemma_tile_count_fits(self.width as int, width as int);
            lemma_tile_count_fits(self.height as int, height as int);
        }
        let count_w = self.width / width + if self.width % width == 0 { 0 } else { 1 };
        let count_h = self.height / height + if self.height % height == 0 { 0 } else { 1 };
        TileIterator {
            source_width: self.width,
            source_height: self.height,
            width,
            height,
            tile_count_w: count_w,
            tile_count_h: count_h,
            i: 0,
            j: 0,
        }
    }
}

impl<P> RenderTraget for Image<P> {
    open spec fn resolution(&self) -> (u32, u32) {
        (self.width, self.height)
    }

    fn get_resolution(&self) -> (r: (u32, u32)) {
        (self.width, self.height)
    }
}

/// A rectangular window into an image of `source_width` by `source_height`
/// pixels. Windows that do not overlap may be written independently.
#[derive(Debug, Clone, Copy, PartialEq, Eq, Structural)]
pub struct ImageView {
    pub source_width: u32,
    pub source_height: u32,
    pub offset_x: u32,
    pub offset_y: u32,
    pub width: u32,
    pub height: u32,
}

impl ImageView {
    pub open spec fn wf(&self) -> bool {
        &&& self.offset_x + self.width <= self.source_width
        &&& self.offset_y + self.height <= self.source_height
    }

    /// Whether the image pixel in row `y`, column `x` lies in the window.
    pub open spec fn contains(&self, y: int, x: int) -> bool {
        &&& self.offset_y <= y < self.offset_y + self.height
        &&& self.offset_x <= x < self.offset_x + self.width
    }

    /// Buffer position of the window's pixel in row `i`, column `j`.
    pub open spec fn source_index(&self, i: int, j: int) -> int {
        (self.offset_y + i) * self.source_width + self.offset_x + j
    }

    /// Whether buffer position `k` belongs to one of the first `rows` rows of
    /// the window, or to row `rows` left of column `cols`.
    pub open spec fn written(&self, k: int, rows: int, cols: int) -> bool {
        exists|i: int, j: int|
            0 <= j < self.width && ((0 <= i < rows) || (i == rows && j < cols)) && k == #[trigger] self.source_index(i, j)
    }

    /// Buffer position of the window's pixel `[row, column]`.
    pub fn index_of<P>(&self, image: &Image<P>, pixel: [usize; 2]) -> (k: usize)
        requires
            self.wf(),
            image.wf(),
            image.width == self.source_width,
            image.height == self.source_height,
            pixel[0] < self.height,
            pixel[1] < self.width,
        ensures
            k == self.source_index(pixel[0] as int, pixel[1] as int),
            k < image.pixels@.len(),
    {
        let y = self.offset_y as usize + pixel[0];
        let x = self.offset_x as usize + pixel[1];
        let w = self.source_width as usize;
        let n = image.pixels.len();
        proof {
            let h = self.source_height as int;
            assert(y * w + x < h * w) by (nonlinear_arith)
                requires y < h, x < w;
            assert(h * w == n);
        }
        y * w + x
    }

    /// The window's pixel at `[row, column]`.
    pub fn get<P: Copy>(&self, image: &Image<P>, pixel: [usize; 2]) -> (r: P)
        requires
            self.wf(),
            image.wf(),
            image.width == self.source_width,
            image.height == self.source_height,
            pixel[0] < self.height,
            pixel[1] < self.width,
        ensures
            r == image.pixels@[self.source_index(pixel[0] as int, pixel[1] as int)],
    {
        let k = self.index_of(image, pixel);
        image.pixels[k]
    }

    /// Replaces the window's pixel at `[row, column]`.
    pub fn set<P: Copy>(&self, image: &mut Image<P>, pixel: [usize; 2], value: P)
        requires
            self.wf(),
            old(image).wf(),
            old(image).width == self.source_width,
            old(image).height == self.source_height,
            pixel[0] < self.height,
            pixel[1] < self.width,
        ensures
            final(image).width == old(image).width,
            final(image).height == old(image).height,
            final(image).pixels@ == old(image).pixels@.update(
                self.source_index(pixel[0] as int, pixel[1] as int),
                value,
            ),
    {
        let k = self.index_of(image, pixel);
        image.pixels.set(k, value);
    }

    /// Sets every pixel of the window to `color`, leaving the rest of the
    /// image as it was.
    pub fn fill<P: Copy>(&self, image: &mut Image<P>, color: P)
        requires
            self.wf(),
            old(image).wf(),
            old(image).width == self.source_width,
            old(image).height == self.source_height,
        ensures
            final(image).width == old(image).width,
            final(image).height == old(image).height,
            final(image).pixels@.len() == old(image).pixels@.len(),
            forall|i: int, j: int| 0 <= i < self.height && 0 <= j < self.width
                ==> final(image).pixels@[#[trigger] self.source_index(i, j)] == color,
            forall|k: int| 0 <= k < old(image).pixels@.len() && !self.written(k, self.height as int, 0)
                ==> final(image).pixels@[k] == old(image).pixels@[k],
    {
        let mut i: usize = 0;
        while i < self.height as usize
            invariant
                self.wf(),
                image.wf(),
                image.width == self.source_width,
                image.height == self.source_height,
                image.pixels@.len() == old(image).pixels@.len(),
                i <= self.height,
                forall|k: int| 0 <= k < image.pixels@.len() && self.written(k, i as int, 0) ==> image.pixels@[k] == color,
                forall|k: int| 0 <= k < image.pixels@.len() && !self.written(k, i as int, 0)
                    ==> image.pixels@[k] == old(image).pixels@[k],
            decreases self.height - i,
        {
            let mut j: usize = 0;
            while j < self.width as usize
                invariant
                    self.wf(),
                    image.wf(),
                    image.width == self.source_width,
                    image.height == self.source_height,
                    image.pixels@.len() == old(image).pixels@.len(),
                    i < self.height,
                    j <= self.width,
                    forall|k: int| 0 <= k < image.pixels@.len() && self.written(k, i as int, j as int) ==> image.pixels@[k] == color,
                    forall|k: int| 0 <= k < image.pixels@.len() && !self.written(k, i as int, j as int)
                        ==> image.pixels@[k] == old(image).pixels@[k],
                decreases self.width - j,
            {
                let ghost before = image.pixels@;
                let k0 = self.index_of(image, [i, j]);
                image.pixels.set(k0, color);
                assert forall|k: int| 0 <= k < image.pixels@.len() && self.written(k, i as int, j + 1) implies image.pixels@[k] == color by {
                    if k != k0 {
                        let (ii, jj) = choose|ii: int, jj: int|
                            0 <= jj < self.width && ((0 <= ii < i) || (ii == i && jj < j + 1)) && k == #[trigger] self.source_index(ii, jj);
                        if ii == i && jj == j {
                        } else {
                            assert(self.written(k, i as int, j as int));
                        }
                    }
                }
                assert forall|k: int| 0 <= k < image.pixels@.len() && !self.written(k, i as int, j + 1)
                    implies image.pixels@[k] == old(image).pixels@[k] by {
                    assert(self.written(k0 as int, i as int, j + 1)) by {
                        assert(k0 == self.source_index(i as int, j as int));
                    }
                    if self.written(k, i as int, j as int) {
                        let (ii, jj) = choose|ii: int, jj: int|
                            0 <= jj < self.width && ((0 <= ii < i) || (ii == i && jj < j)) && k == #[trigger] self.source_index(ii, jj);
                        assert(self.written(k, i as int, j + 1));
                    }
                }
                j = j + 1;
            }
            assert forall|k: int| 0 <= k < image.pixels@.len() && self.written(k, i + 1, 0) implies image.pixels@[k] == color by {
                let (ii, jj) = choose|ii: int, jj: int|
                    0 <= jj < self.width && ((0 <= ii < i + 1) || (ii == i + 1 && jj < 0)) && k == #[trigger] self.source_index(ii, jj);
                assert(self.written(k, i as int, self.width as int));
            }
            assert forall|k: int| 0 <= k < image.pixels@.len() && !self.written(k, i + 1, 0)
                implies image.pixels@[k] == old(image).pixels@[k] by {
                if self.written(k, i as int, self.width as int) {
                    let (ii, jj) = choose|ii: int, jj: int|
                        0 <= jj < self.width && ((0 <= ii < i) || (ii == i && jj < self.width)) && k == #[trigger] self.source_index(ii, jj);
                    assert(self.written(k, i + 1, 0));
                }
            }
            i = i + 1;
        }
        assert forall|i: int, j: int| 0 <= i < self.height && 0 <= j < self.width
            implies image.pixels@[#[trigger] self.source_index(i, j)] == color by {
            assert(self.written(self.source_index(i, j), self.height as int, 0));
            let h = self.source_height as int;
            let w = self.source_width as int;
            let y = self.offset_y + i;
            let x = self.offset_x + j;
            assert(y * w + x < h * w) by (nonlinear_arith)
                requires 0 <= y < h, 0 <= x < w;
            assert(0 <= y * w) by (nonlinear_arith)
                requires 0 <= y, 0 <= w;
        }
    }
}

impl RenderTraget for ImageView {
    open spec fn resolution(&self) -> (u32, u32) {
        (self.width, self.height)
    }

    fn get_resolution(&self) -> (r: (u32, u32)) {
        (self.width, self.height)
    }
}

/// Produces, one by one, the tiles that cover an image.
#[derive(Debug, Clone, Copy)]
pub struct TileIterator {
    source_width: u32,
    source_height: u32,
    width: u32,
    height: u32,
    tile_count_w: u32,
    tile_count_h: u32,
    i: u32,
    j: u32,
}

impl TileIterator {
    pub closed spec fn source_width(&self) -> u32 {
        self.source_width
    }

    pub closed spec fn source_height(&self) -> u32 {
        self.source_height
    }

    pub closed spec fn tile_width(&self) -> u32 {
        self.width
    }

    pub closed spec fn tile_height(&self) -> u32 {
        self.height
    }

    /// Row of the next tile.
    pub closed spec fn row(&self) -> int {
        self.i as int
    }

    /// Column of the next tile.
    pub closed spec fn col(&self) -> int {
        self.j as int
    }

    pub closed spec fn wf(&self) -> bool {
        &&& self.width > 0
        &&& self.height > 0
        &&& self.tile_count_w == tile_count(self.source_width as int, self.width as int)
        &&& self.tile_count_h == tile_count(self.source_height as int, self.height as int)
        &&& self.i <= self.tile_count_h
        &&& (self.j < self.tile_count_w || (self.j == 0 && self.tile_count_w == 0))
        &&& (self.i == self.tile_count_h ==> self.j == 0)
    }

    /// The next tile, or `None` once every tile has been produced.
    pub fn next(&mut self) -> (r: Option<ImageView>)
        requires
            old(self).wf(),
        ensures
            final(self).wf(),
            final(self).source_width() == old(self).source_width(),
            final(self).source_height() == old(self).source_height(),
            final(self).tile_width() == old(self).tile_width(),
            final(self).tile_height() == old(self).tile_height(),
            ({
                let w = old(self).source_width();
                let h = old(self).source_height();
                let cw = tile_count(w as int, old(self).tile_width() as int);
                let ch = tile_count(h as int, old(self).tile_height() as int);
                if old(self).row() < ch && cw > 0 {
                    &&& r == Some(tile(w, h, old(self).tile_width(), old(self).tile_height(), old(self).row(), old(self).col()))
                    &&& r.unwrap().wf()
                    &&& if old(self).col() + 1 < cw {
                        final(self).row() == old(self).row() && final(self).col() == old(self).col() + 1
                    } else {
                        final(self).row() == old(self).row() + 1 && final(self).col() == 0
                    }
                } else {
                    r is None && final(self).row() == old(self).row() && final(self).col() == old(self).col()
                }
            }),
    {
        if self.i >= self.tile_count_h || self.tile_count_w == 0 {
            return None;
        }
        proof {
            lemma_tile_offset_fits(self.source_width as int, self.width as int, self.j as int);
            lemma_tile_offset_fits(self.source_height as int, self.height as int, self.i as int);
        }
        let offset_x = self.j * self.width;
        let offset_y = self.i * self.height;
        let rest_w = self.source_width - offset_x;
        let rest_h = self.source_height - offset_y;
        let tile = ImageView {
            source_width: self.source_width,
            source_height: self.source_height,
            offset_x,
            offset_y,
            width: if self.width <= rest_w { self.width } else { rest_w },
            height: if self.height <= rest_h { self.height } else { rest_h },
        };
        if self.j + 1 < self.tile_count_w {
            self.j = self.j + 1;
        } else {
            self.j = 0;
            self.i = self.i + 1;
        }
        Some(tile)
    }
}

/// Tiles cover the image without overlap: the pixel in row `y`, column `x`
/// lies in the tile of row `y / th` and column `x / tw`, and in no other.
pub proof fn lemma_tiles_partition(w: u32, h: u32, tw: u32, th: u32, y: int, x: int)
    requires
        tw > 0,
        th > 0,
        0 <= y < h,
        0 <= x < w,
    ensures
        y / (th as int) < tile_count(h as int, th as int),
        x / (tw as int) < tile_count(w as int, tw as int),
        tile(w, h, tw, th, y / (th as int), x / (tw as int)).contains(y, x),
        forall|row: int, col: int|
            0 <= row < tile_count(h as int, th as int) && 0 <= col < tile_count(w as int, tw as int)
                && #[trigger] tile(w, h, tw, th, row, col).contains(y, x) ==> row == y / (th as int) && col == x / (tw as int),
{
    lemma_index_in_tile(h as int, th as int, y);
    lemma_index_in_tile(w as int, tw as int, x);
    assert forall|row: int, col: int|
        0 <= row < tile_count(h as int, th as int) && 0 <= col < tile_count(w as int, tw as int)
            && #[trigger] tile(w, h, tw, th, row, col).contains(y, x) implies row == y / (th as int) && col == x / (tw as int) by {
        lemma_tile_offset_fits(h as int, th as int, row);
        lemma_tile_offset_fits(w as int, tw as int, col);
        lemma_index_in_tile(h as int, th as int, y);
        lemma_tile_row(y, th as int, row);
        lemma_tile_row(x, tw as int, col);
    }
}

/// Position `p` of a length `n` falls in tile `p / t`, which exists.
proof fn lemma_index_in_tile(n: int, t: int, p: int)
    requires
        t > 0,
        0 <= p < n,
    ensures
        0 <= p / t < tile_count(n, t),
        (p / t) * t <= p < (p / t) * t + t,
{
    let q = p / t;
    let nq = n / t;
    let nr = n % t;
    vstd::arithmetic::div_mod::lemma_fundamental_div_mod(p, t);
    vstd::arithmetic::div_mod::lemma_fundamental_div_mod(n, t);
    assert(q >= 0) by (nonlinear_arith)
        requires p == t * q + p % t, 0 <= p % t < t, p >= 0;
    assert(q * t <= p < q * t + t) by (nonlinear_arith)
        requires p == t * q + p % t, 0 <= p % t < t;
    if nr == 0 {
        assert(q < nq) by (nonlinear_arith)
            requires q * t <= p, p < n, n == t * nq, t > 0;
    } else {
        assert(q <= nq) by (nonlinear_arith)
            requires q * t <= p, p < n, n == t * nq + nr, nr < t, t > 0;
    }
}

/// A position that lies in `[row * t, row * t + t)` belongs to tile `row`.
proof fn lemma_tile_row(p: int, t: int, row: int)
    requires
        t > 0,
        p >= 0,
        row >= 0,
        row * t <= p < row * t + t,
    ensures
        row == p / t,
{
    let q = p / t;
    vstd::arithmetic::div_mod::lemma_fundamental_div_mod(p, t);
    assert(q * t <= p < q * t + t) by (nonlinear_arith)
        requires p == t * q + p % t, 0 <= p % t < t;
    if row < q {
        assert(row * t + t <= q * t) by (nonlinear_arith)
            requires row < q, t > 0;
    }
    if row > q {
        assert(q * t + t <= row * t) by (nonlinear_arith)
            requires row > q, t > 0;
    }
}

/// The tile at index `k` of `tile_count(n, t)` starts inside the image.
proof fn lemma_tile_offset_fits(n: int, t: int, k: int)
    requires
        n >= 0,
        t > 0,
        0 <= k < tile_count(n, t),
    ensures
        0 <= k * t < n,
{
    let q = n / t;
    let r = n % t;
    assert(n == q * t + r && 0 <= r < t) by {
        vstd::arithmetic::div_mod::lemma_fundamental_div_mod(n, t);
    }
    assert(0 <= k * t) by (nonlinear_arith)
        requires 0 <= k, t > 0;
    if r == 0 {
        assert(k * t < n) by (nonlinear_arith)
            requires k < q, n == q * t, t > 0;
    } else {
        assert(k * t < n) by (nonlinear_arith)
            requires 0 <= k <= q, n == q * t + r, r > 0, t > 0;
    }
}

/// A tile count fits the type of the length it counts.
proof fn lemma_tile_count_fits(n: int, t: int)
    requires
        0 <= n <= u32::MAX,
        t > 0,
    ensures
        n / t + (if n % t == 0 { 0int } else { 1int }) <= u32::MAX,
        tile_count(n, t) == n / t + (if n % t == 0 { 0int } else { 1int }),
{
    let q = n / t;
    let r = n % t;
    assert(n == q * t + r && 0 <= r < t) by {
        vstd::arithmetic::div_mod::lemma_fundamental_div_mod(n, t);
    }
    assert(q >= 0) by (nonlinear_arith)
        requires n == q * t + r, 0 <= r < t, n >= 0;
    if r != 0 {
        assert(q * 2 <= n) by (nonlinear_arith)
            requires n == q * t + r, t >= 2, q >= 0, r >= 0;
    } else {
        assert(q <= n) by (nonlinear_arith)
            requires n == q * t, t >= 1, q >= 0;
    }
}

} // verus!
