//! Rendering into the bands of an image.
//!
//! A worker renders its band by asking a shading function for the colour of
//! each pixel.  What the function does to find the colour is its own affair;
//! here it is settled which pixels a worker asks for and where their bytes
//! go, and with that, that workers never write to the same place and that
//! the finished image does not depend on how many of them there were.
use vstd::prelude::*;
use vstd::arithmetic::div_mod::lemma_fundamental_div_mod;
use vstd::arithmetic::div_mod::lemma_mod_pos_bound;
use crate::bands::Bands;
use crate::bands::bands_tile_buffer;
use crate::bands::lemma_bytes_monotonic;
use crate::bands::lemma_rows_before;
use crate::bands::pixel_has_one_place;

verus! {

impl Bands {
    /// Pixel `x` of row `band_y` of band `i` holds, in `band`, a colour that
    /// `shade` gave for that pixel's place in the image.
    pub open spec fn shaded<F: Fn(usize, usize) -> (u8, u8, u8)>(
        &self,
        i: int,
        band: Seq<u8>,
        shade: &F,
        band_y: int,
        x: int,
    ) -> bool {
        let at = self.spec_offset(band_y, x);
        let y = self.spec_row(i, band_y).unwrap();
        shade.ensures((x as usize, y as usize), (band[at], band[at + 1], band[at + 2]))
    }

    /// Renders band `i` into `band`, the worker's own part of the buffer.
    ///
    /// Rows are taken from the band's top row downwards and pixels from left
    /// to right, `shade` is asked once for each pixel with the pixel's column
    /// and image row, and the three bytes it gives are stored at the pixel's
    /// place.  Afterwards every pixel of the band holds what `shade` gave
    /// for it.  Where `band` has not the length of band `i`, nothing is
    /// rendered and the answer is `false`.
    pub fn render_band<F: Fn(usize, usize) -> (u8, u8, u8)>(
        &self,
        i: usize,
        band: &mut [u8],
        shade: &F,
    ) -> (done: bool)
        requires
            self.wf(),
            forall|x: usize, y: usize| x < self.width && y < self.height ==> shade.requires((x, y)),
        ensures
            done <==> old(band)@.len() == self.spec_band_len(i as int),
            !done ==> final(band)@ == old(band)@,
            final(band)@.len() == old(band)@.len(),
            done ==> forall|band_y: int, x: int|
                0 <= band_y < self.spec_rows_in_band(i as int) && 0 <= x < self.width
                    ==> #[trigger] self.shaded(i as int, final(band)@, shade, band_y, x),
    {
        if band.len() != self.band_len(i) {
            return false;
        }
        let rows: usize = self.rows_in_band(i);
        if rows == 0 {
            return true;
        }
        proof {
            lemma_rows_before(*self, i as int);
        }
        let top_row: usize = self.height - 1 - self.rows_before(i);
        let width: usize = self.width;
        let mut band_y: usize = 0;
        while band_y < rows
            invariant
                self.wf(),
                top_row == self.height - 1 - self.spec_rows_before(i as int),
                rows <= top_row + 1,
                rows == self.spec_rows_in_band(i as int),
                rows <= self.spec_rows_per_band(),
                width == self.width,
                band_y <= rows,
                band@.len() == self.spec_band_len(i as int),
                forall|x: usize, y: usize|
                    x < self.width && y < self.height ==> shade.requires((x, y)),
                forall|by: int, x: int|
                    0 <= by < band_y && 0 <= x < width ==> #[trigger] self.shaded(
                        i as int,
                        band@,
                        shade,
                        by,
                        x,
                    ),
            decreases rows - band_y,
        {
            let y: usize = top_row - band_y;
            let mut x: usize = 0;
            while x < width
                invariant
                    self.wf(),
                    rows == self.spec_rows_in_band(i as int),
                    rows <= self.spec_rows_per_band(),
                    width == self.width,
                    band_y < rows,
                    x <= width,
                    y < self.height,
                    self.spec_row(i as int, band_y as int) == Some(y as int),
                    band@.len() == self.spec_band_len(i as int),
                    forall|x: usize, y: usize|
                        x < self.width && y < self.height ==> shade.requires((x, y)),
                    forall|by: int, x: int|
                        0 <= by < band_y && 0 <= x < width ==> #[trigger] self.shaded(
                            i as int,
                            band@,
                            shade,
                            by,
                            x,
                        ),
                    forall|px: int|
                        0 <= px < x ==> #[trigger] self.shaded(
                            i as int,
                            band@,
                            shade,
                            band_y as int,
                            px,
                        ),
                decreases width - x,
            {
                let (red, green, blue) = shade(x, y);
                let at: usize = self.offset(band_y, x);
                let ghost before = band@;
                proof {
                    assert((band_y * width + x) * 3 + 3 <= rows * width * 3) by (nonlinear_arith)
                        requires
                            0 <= band_y < rows,
                            0 <= x < width,
                    ;
                }
                band[at] = red;
                band[at + 1] = green;
                band[at + 2] = blue;
                proof {
                    assert forall|by: int, px: int|
                        0 <= px < width && ((0 <= by < band_y) || (by == band_y && px
                            < x)) implies #[trigger] self.shaded(
                        i as int,
                        band@,
                        shade,
                        by,
                        px,
                    ) by {
                        assert(self.shaded(i as int, before, shade, by, px));
                        let other = self.spec_offset(by, px);
                        assert(other + 3 <= at) by (nonlinear_arith)
                            requires
                                other == (by * width + px) * 3,
                                at == (band_y * width + x) * 3,
                                0 <= px < width,
                                0 <= x < width,
                                (0 <= by < band_y) || (by == band_y && px < x),
                        ;
                        assert(other >= 0) by (nonlinear_arith)
                            requires
                                other == (by * width + px) * 3,
                                0 <= px,
                                0 <= by,
                                0 <= width,
                        ;
                    }
                    assert(self.shaded(i as int, band@, shade, band_y as int, x as int));
                }
                x += 1;
            }
            band_y += 1;
        }
        true
    }
}

/// Rendering twice gives the same band: where `shade` can give only one
/// colour for each pixel, two bands that both hold what `shade` gave for
/// every pixel are equal byte for byte.
pub proof fn render_is_repeatable<F: Fn(usize, usize) -> (u8, u8, u8)>(
    b: Bands,
    i: int,
    shade: &F,
    first: Seq<u8>,
    second: Seq<u8>,
)
    requires
        b.wf(),
        i >= 0,
        first.len() == b.spec_band_len(i),
        second.len() == b.spec_band_len(i),
        forall|x: usize, y: usize, one: (u8, u8, u8), other: (u8, u8, u8)|
            shade.ensures((x, y), one) && shade.ensures((x, y), other) ==> one == other,
        forall|band_y: int, x: int|
            0 <= band_y < b.spec_rows_in_band(i) && 0 <= x < b.width ==> #[trigger] b.shaded(
                i,
                first,
                shade,
                band_y,
                x,
            ),
        forall|band_y: int, x: int|
            0 <= band_y < b.spec_rows_in_band(i) && 0 <= x < b.width ==> #[trigger] b.shaded(
                i,
                second,
                shade,
                band_y,
                x,
            ),
    ensures
        first == second,
{
    let w = b.width as int;
    let n = b.spec_rows_in_band(i);
    lemma_rows_before(b, i);
    assert forall|p: int| 0 <= p < first.len() implies first[p] == second[p] by {
        let q = p / 3;
        let c = p % 3;
        assert(w > 0 && n > 0) by (nonlinear_arith)
            requires
                0 <= p < n * w * 3,
                w >= 0,
                n >= 0,
        ;
        let band_y = q / w;
        let x = q % w;
        lemma_fundamental_div_mod(q, w);
        lemma_mod_pos_bound(q, w);
        assert(0 <= band_y < n) by (nonlinear_arith)
            requires
                q == w * band_y + x,
                0 <= x < w,
                0 <= q,
                q * 3 + c < n * w * 3,
                0 <= c,
        ;
        assert(b.spec_offset(band_y, x) == q * 3) by (nonlinear_arith)
            requires
                q == w * band_y + x,
                b.spec_offset(band_y, x) == (band_y * w + x) * 3,
        ;
        assert(b.shaded(i, first, shade, band_y, x));
        assert(b.shaded(i, second, shade, band_y, x));
    }
    assert(first =~= second);
}

impl Bands {
    /// Band `i` as a part of the whole buffer.
    pub open spec fn spec_band_of(&self, buffer: Seq<u8>, i: int) -> Seq<u8> {
        buffer.subrange(self.spec_band_start(i), self.spec_band_start(i + 1))
    }

    /// `buffer` is a finished image: it has the buffer's length, and every
    /// pixel of every band holds a colour that `shade` gave for it.
    pub open spec fn rendered<F: Fn(usize, usize) -> (u8, u8, u8)>(
        &self,
        buffer: Seq<u8>,
        shade: &F,
    ) -> bool {
        &&& buffer.len() == self.spec_buffer_len()
        &&& forall|i: int, band_y: int, x: int|
            0 <= i < self.spec_band_count() && 0 <= band_y < self.spec_rows_in_band(i) && 0 <= x
                < self.width ==> #[trigger] self.shaded(
                i,
                self.spec_band_of(buffer, i),
                shade,
                band_y,
                x,
            )
    }
}

impl Bands {
    /// Renders band `i` and the bands after it into `rest`, the part of the
    /// buffer that starts with band `i`.
    fn render_from<F: Fn(usize, usize) -> (u8, u8, u8)>(
        &self,
        i: usize,
        rest: &mut [u8],
        shade: &F,
    )
        requires
            self.wf(),
            i <= self.spec_band_count(),
            old(rest)@.len() == self.spec_buffer_len() - self.spec_band_start(i as int),
            forall|x: usize, y: usize| x < self.width && y < self.height ==> shade.requires((x, y)),
        ensures
            final(rest)@.len() == old(rest)@.len(),
            forall|j: int, band_y: int, x: int|
                i <= j < self.spec_band_count() && 0 <= band_y < self.spec_rows_in_band(j) && 0
                    <= x < self.width ==> #[trigger] self.shaded(
                    j,
                    final(rest)@.subrange(
                        self.spec_band_start(j) - self.spec_band_start(i as int),
                        self.spec_band_start(j + 1) - self.spec_band_start(i as int),
                    ),
                    shade,
                    band_y,
                    x,
                ),
        decreases self.spec_band_count() - i,
    {
        if i >= self.band_count() {
            return ;
        }
        proof {
            bands_tile_buffer(*self, i as int);
            bands_tile_buffer(*self, i + 1);
            lemma_starts_grow(*self, i + 1, self.spec_band_count());
            bands_tile_buffer(*self, self.spec_band_count());
        }
        let len: usize = self.band_len(i);
        let (band, tail) = rest.split_at_mut(len);
        self.render_band(i, band, shade);
        self.render_from(i + 1, tail, shade);
        proof {
            let whole = band@ + tail@;
            let here = self.spec_band_start(i as int);
            let next = self.spec_band_start(i + 1);
            assert forall|j: int, band_y: int, x: int|
                i <= j < self.spec_band_count() && 0 <= band_y < self.spec_rows_in_band(j) && 0
                    <= x < self.width implies #[trigger] self.shaded(
                j,
                whole.subrange(
                    self.spec_band_start(j) - here,
                    self.spec_band_start(j + 1) - here,
                ),
                shade,
                band_y,
                x,
            ) by {
                bands_tile_buffer(*self, j);
                if j == i {
                    assert(whole.subrange(0, len as int) =~= band@);
                    assert(self.shaded(j, band@, shade, band_y, x));
                } else {
                    lemma_starts_grow(*self, i + 1, j);
                    lemma_starts_grow(*self, j + 1, self.spec_band_count());
                    assert(whole.subrange(
                        self.spec_band_start(j) - here,
                        self.spec_band_start(j + 1) - here,
                    ) =~= tail@.subrange(
                        self.spec_band_start(j) - next,
                        self.spec_band_start(j + 1) - next,
                    ));
                    assert(self.shaded(
                        j,
                        tail@.subrange(
                            self.spec_band_start(j) - next,
                            self.spec_band_start(j + 1) - next,
                        ),
                        shade,
                        band_y,
                        x,
                    ));
                }
            }
        }
    }

    /// Renders the whole image into `buffer`, band after band.
    ///
    /// Where `buffer` has not the length of the image's buffer, nothing is
    /// rendered and the answer is `false`.
    pub fn render<F: Fn(usize, usize) -> (u8, u8, u8)>(
        &self,
        buffer: &mut [u8],
        shade: &F,
    ) -> (done: bool)
        requires
            self.wf(),
            forall|x: usize, y: usize| x < self.width && y < self.height ==> shade.requires((x, y)),
        ensures
            done <==> old(buffer)@.len() == self.spec_buffer_len(),
            !done ==> final(buffer)@ == old(buffer)@,
            done ==> self.rendered(final(buffer)@, shade),
    {
        if buffer.len() != self.buffer_len() {
            return false;
        }
        proof {
            bands_tile_buffer(*self, 0);
        }
        self.render_from(0, buffer, shade);
        proof {
            assert forall|i: int, band_y: int, x: int|
                0 <= i < self.spec_band_count() && 0 <= band_y < self.spec_rows_in_band(i) && 0
                    <= x < self.width implies #[trigger] self.shaded(
                i,
                self.spec_band_of(buffer@, i),
                shade,
                band_y,
                x,
            ) by {
                assert(self.shaded(
                    i,
                    buffer@.subrange(
                        self.spec_band_start(i) - self.spec_band_start(0),
                        self.spec_band_start(i + 1) - self.spec_band_start(0),
                    ),
                    shade,
                    band_y,
                    x,
                ));
            }
        }
        true
    }
}

/// Later bands start later in the buffer.
proof fn lemma_starts_grow(b: Bands, i: int, j: int)
    requires
        b.wf(),
        0 <= i <= j,
    ensures
        0 <= b.spec_band_start(i) <= b.spec_band_start(j) <= b.spec_buffer_len(),
    decreases j - i,
{
    bands_tile_buffer(b, i);
    bands_tile_buffer(b, j);
    if i < j {
        lemma_starts_grow(b, i + 1, j);
    } else {
        lemma_rows_before(b, i);
        lemma_bytes_monotonic(b.spec_rows_before(i), b.height as int, b.width as int);
        assert(b.height * b.width * 3 == b.width * b.height * 3) by (nonlinear_arith);
    }
}

/// A finished image holds its pixels row by row, top row first, however many
/// bands it was rendered in: the three bytes at the place of pixel `x` of
/// image row `y` are a colour that `shade` gave for that pixel.
pub proof fn image_is_row_major<F: Fn(usize, usize) -> (u8, u8, u8)>(
    b: Bands,
    buffer: Seq<u8>,
    shade: &F,
    x: int,
    y: int,
)
    requires
        b.wf(),
        b.rendered(buffer, shade),
        0 <= x < b.width,
        0 <= y < b.height,
    ensures
        0 <= b.spec_buffer_index(x, y),
        b.spec_buffer_index(x, y) + 3 <= buffer.len(),
        shade.ensures(
            (x as usize, y as usize),
            (
                buffer[b.spec_buffer_index(x, y)],
                buffer[b.spec_buffer_index(x, y) + 1],
                buffer[b.spec_buffer_index(x, y) + 2],
            ),
        ),
{
    pixel_has_one_place(b, x, y);
    let down = b.height - 1 - y;
    let i = down / b.spec_rows_per_band();
    let band_y = down % b.spec_rows_per_band();
    bands_tile_buffer(b, i);
    lemma_rows_before(b, i);
    lemma_rows_before(b, i + 1);
    lemma_bytes_monotonic(b.spec_rows_before(i), b.spec_rows_before(i + 1), b.width as int);
    lemma_bytes_monotonic(b.spec_rows_before(i + 1), b.height as int, b.width as int);
    assert(b.height * b.width * 3 == b.width * b.height * 3) by (nonlinear_arith);
    let band = b.spec_band_of(buffer, i);
    let at = b.spec_offset(band_y, x);
    assert(at >= 0) by (nonlinear_arith)
        requires
            at == (band_y * b.width + x) * 3,
            band_y >= 0,
            x >= 0,
            b.width >= 0,
    ;
    assert(b.shaded(i, band, shade, band_y, x));
    assert(band[at] == buffer[b.spec_band_start(i) + at]);
    assert(band[at + 1] == buffer[b.spec_band_start(i) + at + 1]);
    assert(band[at + 2] == buffer[b.spec_band_start(i) + at + 2]);
}

/// Rendering twice gives the same image: where `shade` can give only one
/// colour for each pixel, two finished images of one size are equal byte for
/// byte, whether or not they were rendered with the same number of workers.
pub proof fn image_is_repeatable<F: Fn(usize, usize) -> (u8, u8, u8)>(
    a: Bands,
    b: Bands,
    shade: &F,
    first: Seq<u8>,
    second: Seq<u8>,
)
    requires
        a.wf(),
        b.wf(),
        a.width == b.width,
        a.height == b.height,
        forall|x: usize, y: usize, one: (u8, u8, u8), other: (u8, u8, u8)|
            shade.ensures((x, y), one) && shade.ensures((x, y), other) ==> one == other,
        a.rendered(first, shade),
        b.rendered(second, shade),
    ensures
        first == second,
{
    let w = a.width as int;
    let h = a.height as int;
    assert forall|p: int| 0 <= p < first.len() implies first[p] == second[p] by {
        let q = p / 3;
        let c = p % 3;
        assert(w > 0 && h > 0) by (nonlinear_arith)
            requires
                0 <= p < w * h * 3,
                w >= 0,
                h >= 0,
        ;
        let down = q / w;
        let x = q % w;
        lemma_fundamental_div_mod(q, w);
        lemma_mod_pos_bound(q, w);
        assert(0 <= down < h) by (nonlinear_arith)
            requires
                q == w * down + x,
                0 <= x < w,
                0 <= q,
                q * 3 + c < w * h * 3,
                0 <= c,
        ;
        let y = h - 1 - down;
        assert(a.spec_buffer_index(x, y) == q * 3) by (nonlinear_arith)
            requires
                q == w * down + x,
                a.spec_buffer_index(x, y) == ((h - 1 - y) * w + x) * 3,
                y == h - 1 - down,
        ;
        assert(b.spec_buffer_index(x, y) == a.spec_buffer_index(x, y));
        image_is_row_major(a, first, shade, x, y);
        image_is_row_major(b, second, shade, x, y);
    }
    assert(first =~= second);
}

} // verus!
