//! How an image is cut into horizontal bands, one per worker.
//!
//! The pixel buffer holds `width * height` pixels of three bytes each, row by
//! row with the top row of the image first.  Image rows are numbered upwards,
//! so row `height - 1` is stored first and row `0` last.  The buffer is cut
//! into consecutive bands of equal height (the last one may be shorter); each
//! worker owns one band and writes nothing outside it.
use vstd::prelude::*;
use vstd::arithmetic::div_mod::lemma_fundamental_div_mod;
use vstd::arithmetic::div_mod::lemma_mod_pos_bound;

verus! {

/// Bytes per pixel: red, green, blue.
pub const CHANNELS: usize = 3;

/// `a / b`, rounded up.
pub open spec fn ceil_div(a: int, b: int) -> int
    recommends
        a >= 0,
        b > 0,
{
    if a <= 0 || b <= 0 {
        0
    } else {
        (a - 1) / b + 1
    }
}

/// `ceil_div(a, b)` is the least `r` with `r * b >= a`.
pub proof fn ceil_div_is_least(a: int, b: int)
    requires
        a >= 0,
        b > 0,
    ensures
        ceil_div(a, b) * b >= a,
        forall|r: int| #[trigger] (r * b) >= a ==> ceil_div(a, b) <= r,
        a > 0 ==> ceil_div(a, b) >= 1,
        ceil_div(a, b) <= a,
{
    if a > 0 {
        let q = (a - 1) / b;
        let m = (a - 1) % b;
        lemma_fundamental_div_mod(a - 1, b);
        lemma_mod_pos_bound(a - 1, b);
        assert(q >= 0) by (nonlinear_arith)
            requires
                a - 1 == b * q + m,
                0 <= m < b,
                a >= 1,
        ;
        assert((q + 1) * b == b * q + b) by (nonlinear_arith);
        assert(q + 1 <= a) by (nonlinear_arith)
            requires
                a - 1 == b * q + m,
                0 <= m,
                b >= 1,
                q >= 0,
        ;
        assert forall|r: int| #[trigger] (r * b) >= a implies ceil_div(a, b) <= r by {
            assert(q < r) by (nonlinear_arith)
                requires
                    r * b >= a,
                    a - 1 == b * q + m,
                    0 <= m,
                    b > 0,
            ;
        }
    } else {
        assert forall|r: int| #[trigger] (r * b) >= a implies ceil_div(a, b) <= r by {
            assert(r >= 0) by (nonlinear_arith)
                requires
                    r * b >= 0,
                    b > 0,
            ;
        }
    }
}

/// The layout of a render: image size and the number of workers asked for.
#[derive(Clone, Copy, Debug, PartialEq, Eq, Structural)]
pub struct Bands {
    /// Pixels per row.
    pub width: usize,
    /// Rows in the image.
    pub height: usize,
    /// Workers asked for; at most this many bands are cut.
    pub threads: usize,
}

impl Bands {
    /// There is at least one worker and the buffer's length fits the machine.
    pub open spec fn wf(&self) -> bool {
        &&& self.threads > 0
        &&& self.width * self.height * 3 <= usize::MAX
    }

    /// Rows in every band but possibly the last.
    pub open spec fn spec_rows_per_band(&self) -> int {
        ceil_div(self.height as int, self.threads as int)
    }

    /// Number of bands the buffer is cut into.
    pub open spec fn spec_band_count(&self) -> int {
        ceil_div(self.height as int, self.spec_rows_per_band())
    }

    /// Buffer rows that lie before band `i`.
    pub open spec fn spec_rows_before(&self, i: int) -> int {
        if i * self.spec_rows_per_band() >= self.height {
            self.height as int
        } else {
            i * self.spec_rows_per_band()
        }
    }

    /// Rows in band `i`; zero past the last band.
    pub open spec fn spec_rows_in_band(&self, i: int) -> int {
        self.spec_rows_before(i + 1) - self.spec_rows_before(i)
    }

    /// Bytes in the whole buffer.
    pub open spec fn spec_buffer_len(&self) -> int {
        self.width * self.height * 3
    }

    /// Bytes in a full band: the length at which the buffer is chunked.
    pub open spec fn spec_chunk_len(&self) -> int {
        self.spec_rows_per_band() * self.width * 3
    }

    /// Index in the buffer of the first byte of band `i`.
    pub open spec fn spec_band_start(&self, i: int) -> int {
        self.spec_rows_before(i) * self.width * 3
    }

    /// Bytes in band `i`.
    pub open spec fn spec_band_len(&self, i: int) -> int {
        self.spec_rows_in_band(i) * self.width * 3
    }

    /// The image row that row `band_y` of band `i` holds, if the band has
    /// such a row.
    pub open spec fn spec_row(&self, i: int, band_y: int) -> Option<int> {
        if band_y < self.spec_rows_in_band(i) {
            Some(self.height - 1 - self.spec_rows_before(i) - band_y)
        } else {
            None
        }
    }

    /// Index within a band of the first byte of pixel `x` of its row `band_y`.
    pub open spec fn spec_offset(&self, band_y: int, x: int) -> int {
        (band_y * self.width + x) * 3
    }

    /// Index in the whole buffer of the first byte of pixel `x` of image row
    /// `y`: rows are stored top row first, pixels left to right.
    pub open spec fn spec_buffer_index(&self, x: int, y: int) -> int {
        ((self.height - 1 - y) * self.width + x) * 3
    }
}

/// What holds of the rows that lie before band `i`.
pub(crate) proof fn lemma_rows_before(b: Bands, i: int)
    requires
        b.wf(),
        i >= 0,
    ensures
        b.height > 0 ==> 1 <= b.spec_rows_per_band() <= b.height,
        b.height > 0 ==> 1 <= b.spec_band_count() <= b.threads,
        b.spec_band_count() <= b.height,
        b.height == 0 ==> b.spec_rows_per_band() == 0 && b.spec_band_count() == 0,
        i < b.spec_band_count() ==> b.spec_rows_before(i) == i * b.spec_rows_per_band()
            && b.spec_rows_before(i) < b.height,
        i >= b.spec_band_count() ==> b.spec_rows_before(i) == b.height,
        0 <= b.spec_rows_before(i) <= b.spec_rows_before(i + 1) <= b.height,
        b.spec_rows_in_band(i) <= b.spec_rows_per_band(),
        i < b.spec_band_count() ==> b.spec_rows_in_band(i) >= 1,
{
    let h = b.height as int;
    let t = b.threads as int;
    let r = b.spec_rows_per_band();
    let c = b.spec_band_count();
    ceil_div_is_least(h, t);
    if h > 0 {
        ceil_div_is_least(h, r);
        assert(c <= t) by {
            assert(t * r >= h) by (nonlinear_arith)
                requires
                    r * t >= h,
            ;
        }
        let q = (h - 1) / r;
        let m = (h - 1) % r;
        lemma_fundamental_div_mod(h - 1, r);
        lemma_mod_pos_bound(h - 1, r);
        assert(c == q + 1);
        if i < c {
            assert(i * r <= h - 1) by (nonlinear_arith)
                requires
                    i <= q,
                    h - 1 == r * q + m,
                    0 <= m,
                    r >= 1,
                    i >= 0,
            ;
        } else {
            assert(i * r >= h) by (nonlinear_arith)
                requires
                    i >= q + 1,
                    h - 1 == r * q + m,
                    m < r,
                    r >= 1,
            ;
        }
        if i + 1 < c {
            assert((i + 1) * r <= h - 1) by (nonlinear_arith)
                requires
                    i + 1 <= q,
                    h - 1 == r * q + m,
                    0 <= m,
                    r >= 1,
                    i >= 0,
            ;
        } else {
            assert((i + 1) * r >= h) by (nonlinear_arith)
                requires
                    i + 1 >= q + 1,
                    h - 1 == r * q + m,
                    m < r,
                    r >= 1,
            ;
        }
        assert((i + 1) * r == i * r + r) by (nonlinear_arith);
        assert(i * r >= 0) by (nonlinear_arith)
            requires
                i >= 0,
                r >= 0,
        ;
    } else {
        assert(i * r == 0) by (nonlinear_arith)
            requires
                r == 0,
        ;
        assert((i + 1) * r == 0) by (nonlinear_arith)
            requires
                r == 0,
        ;
    }
}

/// `rows * width * 3` grows with `rows`.
pub(crate) proof fn lemma_bytes_monotonic(rows: int, more: int, width: int)
    requires
        0 <= rows <= more,
        0 <= width,
    ensures
        0 <= rows * width * 3 <= more * width * 3,
{
    assert(0 <= rows * width * 3 <= more * width * 3) by (nonlinear_arith)
        requires
            0 <= rows <= more,
            0 <= width,
    ;
}

impl Bands {
    /// Plans the bands of a `width` by `height` image for `threads` workers.
    /// There is no plan without a worker, nor for a buffer too long to index.
    pub fn new(width: usize, height: usize, threads: usize) -> (r: Option<Bands>)
        ensures
            r is Some <==> threads > 0 && width * height * 3 <= usize::MAX,
            r is Some ==> r.unwrap() == (Bands { width, height, threads }),
    {
        if threads == 0 {
            return None;
        }
        assert(width * height * 3 >= width * height >= 0) by (nonlinear_arith);
        match width.checked_mul(height) {
            None => None,
            Some(pixels) => match pixels.checked_mul(CHANNELS) {
                None => None,
                Some(_) => Some(Bands { width, height, threads }),
            },
        }
    }

    /// Rows in every band but possibly the last: the image's rows divided by
    /// the number of workers, rounded up.
    pub fn rows_per_band(&self) -> (r: usize)
        requires
            self.wf(),
        ensures
            r == self.spec_rows_per_band(),
            r <= self.height,
    {
        proof {
            lemma_rows_before(*self, 0);
        }
        if self.height == 0 {
            0
        } else {
            (self.height - 1) / self.threads + 1
        }
    }

    /// Number of bands, and so of workers that get one.  Never more than the
    /// workers asked for.
    pub fn band_count(&self) -> (r: usize)
        requires
            self.wf(),
        ensures
            r == self.spec_band_count(),
            r <= self.threads,
            r <= self.height,
    {
        proof {
            lemma_rows_before(*self, 0);
        }
        let rows: usize = self.rows_per_band();
        if self.height == 0 {
            0
        } else {
            (self.height - 1) / rows + 1
        }
    }

    /// Bytes in the whole buffer.
    pub fn buffer_len(&self) -> (r: usize)
        requires
            self.wf(),
        ensures
            r == self.spec_buffer_len(),
    {
        assert(self.width * self.height * 3 >= self.width * self.height >= 0) by (nonlinear_arith);
        self.width * self.height * CHANNELS
    }

    /// Bytes in a full band.  Cutting the buffer into consecutive chunks of
    /// this length gives the bands, in order.
    pub fn chunk_len(&self) -> (r: usize)
        requires
            self.wf(),
        ensures
            r == self.spec_chunk_len(),
            r <= self.spec_buffer_len(),
    {
        let rows: usize = self.rows_per_band();
        proof {
            lemma_bytes_monotonic(rows as int, self.height as int, self.width as int);
            assert(rows * self.width * 3 >= rows * self.width >= 0) by (nonlinear_arith);
            assert(self.height * self.width == self.width * self.height) by (nonlinear_arith);
        }
        rows * self.width * CHANNELS
    }

    /// Buffer rows that lie before band `i`.
    pub fn rows_before(&self, i: usize) -> (r: usize)
        requires
            self.wf(),
        ensures
            r == self.spec_rows_before(i as int),
            r <= self.height,
    {
        proof {
            lemma_rows_before(*self, i as int);
        }
        if i >= self.band_count() {
            self.height
        } else {
            i * self.rows_per_band()
        }
    }

    /// Rows in band `i`; zero past the last band.
    pub fn rows_in_band(&self, i: usize) -> (r: usize)
        requires
            self.wf(),
        ensures
            r == self.spec_rows_in_band(i as int),
            r <= self.spec_rows_per_band(),
    {
        proof {
            lemma_rows_before(*self, i as int);
        }
        if i >= self.band_count() {
            0
        } else {
            self.rows_before(i + 1) - self.rows_before(i)
        }
    }

    /// Index in the buffer of the first byte of band `i`.
    pub fn band_start(&self, i: usize) -> (r: usize)
        requires
            self.wf(),
        ensures
            r == self.spec_band_start(i as int),
            r <= self.spec_buffer_len(),
    {
        let rows: usize = self.rows_before(i);
        proof {
            lemma_bytes_monotonic(rows as int, self.height as int, self.width as int);
            assert(rows * self.width * 3 >= rows * self.width >= 0) by (nonlinear_arith);
            assert(self.height * self.width == self.width * self.height) by (nonlinear_arith);
        }
        rows * self.width * CHANNELS
    }

    /// Bytes in band `i`.
    pub fn band_len(&self, i: usize) -> (r: usize)
        requires
            self.wf(),
        ensures
            r == self.spec_band_len(i as int),
            r <= self.spec_chunk_len(),
    {
        let rows: usize = self.rows_in_band(i);
        proof {
            lemma_rows_before(*self, 0);
            lemma_bytes_monotonic(rows as int, self.spec_rows_per_band(), self.width as int);
            lemma_bytes_monotonic(self.spec_rows_per_band(), self.height as int, self.width as int);
            assert(rows * self.width * 3 >= rows * self.width >= 0) by (nonlinear_arith);
            assert(self.height * self.width == self.width * self.height) by (nonlinear_arith);
        }
        rows * self.width * CHANNELS
    }

    /// The image row that row `band_y` of band `i` holds, or `None` where
    /// the band has no such row.
    pub fn row(&self, i: usize, band_y: usize) -> (r: Option<usize>)
        requires
            self.wf(),
        ensures
            r is Some <==> band_y < self.spec_rows_in_band(i as int),
            match r {
                Some(y) => self.spec_row(i as int, band_y as int) == Some(y as int) && y
                    < self.height,
                None => self.spec_row(i as int, band_y as int) is None,
            },
    {
        proof {
            lemma_rows_before(*self, i as int);
        }
        if band_y < self.rows_in_band(i) {
            Some(self.height - 1 - self.rows_before(i) - band_y)
        } else {
            None
        }
    }

    /// Index within a band of the first byte of pixel `x` of its row
    /// `band_y`; the pixel's three bytes follow one another from there.
    pub fn offset(&self, band_y: usize, x: usize) -> (r: usize)
        requires
            self.wf(),
            band_y < self.spec_rows_per_band(),
            x < self.width,
        ensures
            r == self.spec_offset(band_y as int, x as int),
            r + 3 <= self.spec_chunk_len(),
    {
        proof {
            let rows = self.spec_rows_per_band();
            lemma_rows_before(*self, 0);
            lemma_bytes_monotonic(rows, self.height as int, self.width as int);
            assert(self.height * self.width == self.width * self.height) by (nonlinear_arith);
            assert((band_y * self.width + x) * 3 + 3 <= rows * self.width * 3) by (nonlinear_arith)
                requires
                    0 <= band_y < rows,
                    0 <= x < self.width,
            ;
            assert(band_y * self.width >= 0) by (nonlinear_arith);
        }
        (band_y * self.width + x) * CHANNELS
    }
}

/// The bands lie end to end and fill the buffer: the first starts at its
/// first byte, each ends where the next starts, and the last ends with the
/// buffer.  So no byte belongs to two bands and none is left out.  Past the
/// last band nothing is left to own.
///
/// They are what cutting the buffer at every multiple of the chunk length
/// leaves: band `i` starts `i` chunks into the buffer and is a whole chunk
/// long, or as long as what is left of the buffer where that is less.
pub proof fn bands_tile_buffer(b: Bands, i: int)
    requires
        b.wf(),
        i >= 0,
    ensures
        b.spec_band_start(0) == 0,
        b.spec_band_len(i) >= 0,
        b.spec_band_start(i) + b.spec_band_len(i) == b.spec_band_start(i + 1),
        b.spec_band_start(b.spec_band_count()) == b.spec_buffer_len(),
        i >= b.spec_band_count() ==> b.spec_band_len(i) == 0,
        i < b.spec_band_count() && b.width > 0 ==> b.spec_band_len(i) > 0,
        i < b.spec_band_count() ==> b.spec_band_start(i) == i * b.spec_chunk_len(),
        i < b.spec_band_count() ==> b.spec_band_len(i) == if b.spec_band_start(i)
            + b.spec_chunk_len() <= b.spec_buffer_len() {
            b.spec_chunk_len()
        } else {
            b.spec_buffer_len() - b.spec_band_start(i)
        },
{
    let w = b.width as int;
    let h = b.height as int;
    let r = b.spec_rows_per_band();
    let c = b.spec_band_count();
    lemma_rows_before(b, 0);
    lemma_rows_before(b, i);
    lemma_rows_before(b, c);
    let p = b.spec_rows_before(i);
    let n = b.spec_rows_in_band(i);
    assert(0 * r == 0) by (nonlinear_arith);
    assert(0 * w * 3 == 0) by (nonlinear_arith);
    assert(p * w * 3 + n * w * 3 == (p + n) * w * 3) by (nonlinear_arith);
    assert(n * w * 3 >= 0) by (nonlinear_arith)
        requires
            n >= 0,
            w >= 0,
    ;
    assert(h * w * 3 == w * h * 3) by (nonlinear_arith);
    if i < c && w > 0 {
        assert(n * w * 3 > 0) by (nonlinear_arith)
            requires
                n >= 1,
                w >= 1,
        ;
    }
    if i < c {
        assert(i * r * w * 3 == i * (r * w * 3)) by (nonlinear_arith);
        assert(i * r * w * 3 + r * w * 3 == (i + 1) * r * w * 3) by (nonlinear_arith);
        if (i + 1) * r <= h {
            assert((i + 1) * r * w * 3 <= h * w * 3) by (nonlinear_arith)
                requires
                    (i + 1) * r <= h,
                    w >= 0,
            ;
        } else if w > 0 {
            assert((i + 1) * r * w * 3 > h * w * 3) by (nonlinear_arith)
                requires
                    (i + 1) * r > h,
                    w > 0,
            ;
            assert(h * w * 3 - i * r * w * 3 == (h - i * r) * w * 3) by (nonlinear_arith);
        } else {
            assert(n * w * 3 == 0 && r * w * 3 == 0 && p * w * 3 == 0) by (nonlinear_arith)
                requires
                    w == 0,
            ;
        }
    }
}

/// Every pixel has its place in exactly one band.  Pixel `x` of image row
/// `y` lies `height - 1 - y` rows from the top; that count divided by the
/// rows per band names its band, and the remainder its row there.  Its three
/// bytes lie inside that band, and seen from the start of the buffer they
/// stand where a row-by-row layout, top row first, puts them.
pub proof fn pixel_has_one_place(b: Bands, x: int, y: int)
    requires
        b.wf(),
        0 <= x < b.width,
        0 <= y < b.height,
    ensures
        ({
            let down = b.height - 1 - y;
            let i = down / b.spec_rows_per_band();
            let band_y = down % b.spec_rows_per_band();
            &&& 0 <= i < b.spec_band_count()
            &&& 0 <= band_y < b.spec_rows_per_band()
            &&& b.spec_row(i, band_y) == Some(y)
            &&& b.spec_offset(band_y, x) + 3 <= b.spec_band_len(i)
            &&& b.spec_band_start(i) + b.spec_offset(band_y, x) == b.spec_buffer_index(x, y)
            &&& b.spec_buffer_index(x, y) + 3 <= b.spec_buffer_len()
        }),
{
    let w = b.width as int;
    let h = b.height as int;
    let r = b.spec_rows_per_band();
    let c = b.spec_band_count();
    lemma_rows_before(b, 0);
    let down = h - 1 - y;
    let i = down / r;
    let band_y = down % r;
    lemma_fundamental_div_mod(down, r);
    lemma_mod_pos_bound(down, r);
    lemma_fundamental_div_mod(h - 1, r);
    lemma_mod_pos_bound(h - 1, r);
    let q = (h - 1) / r;
    let m = (h - 1) % r;
    assert(0 <= i <= q) by (nonlinear_arith)
        requires
            down == r * i + band_y,
            0 <= band_y < r,
            h - 1 == r * q + m,
            0 <= m < r,
            0 <= down <= h - 1,
    ;
    lemma_rows_before(b, i);
    assert(i * r == r * i) by (nonlinear_arith);
    let n = b.spec_rows_in_band(i);
    assert(band_y < n) by {
        lemma_rows_before(b, i + 1);
        assert((i + 1) * r == i * r + r) by (nonlinear_arith);
    }
    assert((band_y * w + x) * 3 + 3 <= n * w * 3) by (nonlinear_arith)
        requires
            0 <= band_y < n,
            0 <= x < w,
    ;
    assert(i * r * w * 3 + (band_y * w + x) * 3 == ((i * r + band_y) * w + x) * 3)
        by (nonlinear_arith);
    assert(((h - 1 - y) * w + x) * 3 + 3 <= w * h * 3) by (nonlinear_arith)
        requires
            0 <= y < h,
            0 <= x < w,
    ;
}

/// No image row is held twice: two places that hold the same row are the
/// same band and the same row of it.
pub proof fn rows_are_owned_once(b: Bands, i: int, band_y: int, j: int, other_y: int)
    requires
        b.wf(),
        0 <= i,
        0 <= j,
        0 <= band_y,
        0 <= other_y,
        b.spec_row(i, band_y) is Some,
        b.spec_row(i, band_y) == b.spec_row(j, other_y),
    ensures
        i == j,
        band_y == other_y,
{
    let r = b.spec_rows_per_band();
    lemma_rows_before(b, i);
    lemma_rows_before(b, j);
    lemma_rows_before(b, i + 1);
    lemma_rows_before(b, j + 1);
    assert(i * r + band_y == j * r + other_y);
    assert(i == j) by (nonlinear_arith)
        requires
            i * r + band_y == j * r + other_y,
            0 <= band_y < r,
            0 <= other_y < r,
    ;
}

/// Within a band no two pixels share a byte: a byte's index gives back the
/// row, the pixel and the channel it belongs to.
pub proof fn pixels_do_not_overlap(
    b: Bands,
    band_y: int,
    x: int,
    channel: int,
    other_y: int,
    other_x: int,
    other_channel: int,
)
    requires
        0 <= x < b.width,
        0 <= other_x < b.width,
        0 <= channel < 3,
        0 <= other_channel < 3,
        b.spec_offset(band_y, x) + channel == b.spec_offset(other_y, other_x) + other_channel,
    ensures
        band_y == other_y,
        x == other_x,
        channel == other_channel,
{
    let w = b.width as int;
    let p = band_y * w + x;
    let q = other_y * w + other_x;
    assert(p == q);
    assert(band_y == other_y) by (nonlinear_arith)
        requires
            band_y * w + x == other_y * w + other_x,
            0 <= x < w,
            0 <= other_x < w,
    ;
}

} // verus!
