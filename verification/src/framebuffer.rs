//! A row-major framebuffer of pixels and the operations that draw into it.

use vstd::prelude::*;

verus! {

/// The position in row-major storage of the pixel at column `x`, row `y`
/// of an image `w` pixels wide.
pub open spec fn offset(w: int, x: int, y: int) -> int {
    y * w + x
}

/// An in-range column and row have an offset inside the image.
pub proof fn lemma_offset_in_bounds(w: int, h: int, x: int, y: int)
    requires
        0 <= x < w,
        0 <= y < h,
    ensures
        0 <= offset(w, x, y) < w * h,
{
    assert(0 <= y * w) by (nonlinear_arith)
        requires
            0 <= y,
            0 <= w,
    ;
    assert(y * w + w <= h * w) by (nonlinear_arith)
        requires
            y + 1 <= h,
            0 <= w,
    ;
    assert(h * w == w * h) by (nonlinear_arith);
}

/// Two in-range positions share an offset only when they are the same position.
pub proof fn lemma_offset_injective(w: int, x1: int, y1: int, x2: int, y2: int)
    requires
        0 <= x1 < w,
        0 <= x2 < w,
        0 <= y1,
        0 <= y2,
        offset(w, x1, y1) == offset(w, x2, y2),
    ensures
        x1 == x2,
        y1 == y2,
{
    if y1 < y2 {
        assert(y1 * w + w <= y2 * w) by (nonlinear_arith)
            requires
                y1 + 1 <= y2,
                0 <= w,
        ;
    } else if y2 < y1 {
        assert(y2 * w + w <= y1 * w) by (nonlinear_arith)
            requires
                y2 + 1 <= y1,
                0 <= w,
        ;
    }
}

/// An image of `w` columns and `h` rows, stored row by row.
#[derive(Debug)]
pub struct FB<P> {
    pub w: usize,
    pub h: usize,
    pixels: Vec<P>,
}

impl<P> View for FB<P> {
    type V = Seq<P>;

    /// The pixels in storage order: row 0 first, each row left to right.
    closed spec fn view(&self) -> Seq<P> {
        self.pixels@
    }
}

impl<P> FB<P> {
    /// The number of columns.
    pub closed spec fn width(&self) -> usize {
        self.w
    }

    /// The number of rows.
    pub closed spec fn height(&self) -> usize {
        self.h
    }

    /// The storage holds exactly one pixel per column and row.
    pub open spec fn wf(&self) -> bool {
        &&& self@.len() == self.width() * self.height()
        &&& self.width() * self.height() <= usize::MAX
    }

    /// Column `x`, row `y` lies inside the image.
    pub open spec fn in_bounds(&self, x: int, y: int) -> bool {
        0 <= x < self.width() && 0 <= y < self.height()
    }

    /// The pixel at column `x`, row `y`.
    pub open spec fn pixel(&self, x: int, y: int) -> P {
        self@[offset(self.width() as int, x, y)]
    }
}

impl<P: Copy> FB<P> {
    /// An image of `w` by `h` pixels, each of them `fill`.
    pub fn new(w: usize, h: usize, fill: P) -> (fb: FB<P>)
        requires
            w * h <= usize::MAX,
        ensures
            fb.wf(),
            fb.width() == w,
            fb.height() == h,
            fb@ == Seq::new((w * h) as nat, |i: int| fill),
    {
        let n = w * h;
        let mut pixels: Vec<P> = Vec::new();
        let mut i: usize = 0;
        while i < n
            invariant
                i <= n,
                pixels@ == Seq::new(i as nat, |k: int| fill),
            decreases n - i,
        {
            pixels.push(fill);
            i = i + 1;
        }
        FB { w: w, h: h, pixels: pixels }
    }

    /// The pixel stored at offset `y * w + x`.
    pub fn get(&self, x: usize, y: usize) -> (p: P)
        requires
            self.wf(),
            offset(self.width() as int, x as int, y as int) < self.width() * self.height(),
        ensures
            p == self.pixel(x as int, y as int),
    {
        let off = (y * self.w) + x;
        self.pixels[off]
    }

    /// Stores `pix` at offset `y * w + x`; nothing else changes.
    pub fn set(&mut self, x: usize, y: usize, pix: &P)
        requires
            old(self).wf(),
            offset(old(self).width() as int, x as int, y as int) < old(self).width() * old(self).height(),
        ensures
            final(self).width() == old(self).width(),
            final(self).height() == old(self).height(),
            final(self).wf(),
            final(self)@ == old(self)@.update(offset(old(self).width() as int, x as int, y as int), *pix),
    {
        let off = (y * self.w) + x;
        self.pixels.set(off, *pix);
    }

    /// The bytes of the image in storage order, four per pixel: the
    /// red, green, blue and alpha channels that `channels` gives for it.
    pub fn image_data<F: Fn(P) -> (u8, u8, u8, u8)>(&self, channels: F) -> (data: Vec<u8>)
        requires
            self.wf(),
            self.width() * self.height() * 4 <= usize::MAX,
            forall|p: P| call_requires(channels, (p,)),
        ensures
            data@.len() == 4 * self@.len(),
            forall|i: int|
                #![trigger self@[i]]
                0 <= i < self@.len() ==> call_ensures(
                    channels,
                    (self@[i],),
                    (data@[4 * i], data@[4 * i + 1], data@[4 * i + 2], data@[4 * i + 3]),
                ),
    {
        let n = self.w * self.h;
        let mut data: Vec<u8> = Vec::with_capacity(n * 4);
        let mut i: usize = 0;
        while i < n
            invariant
                n == self@.len(),
                n * 4 <= usize::MAX,
                i <= n,
                forall|p: P| call_requires(channels, (p,)),
                data@.len() == 4 * i,
                forall|k: int|
                    #![trigger self@[k]]
                    0 <= k < i ==> call_ensures(
                        channels,
                        (self@[k],),
                        (data@[4 * k], data@[4 * k + 1], data@[4 * k + 2], data@[4 * k + 3]),
                    ),
            decreases n - i,
        {
            let (r, g, b, a) = channels(self.pixels[i]);
            let ghost prev = data@;
            data.push(r);
            data.push(g);
            data.push(b);
            data.push(a);
            proof {
                assert forall|k: int| #![trigger self@[k]] 0 <= k < i + 1 implies call_ensures(
                    channels,
                    (self@[k],),
                    (data@[4 * k], data@[4 * k + 1], data@[4 * k + 2], data@[4 * k + 3]),
                ) by {
                    if k < i {
                        assert(data@[4 * k] == prev[4 * k]);
                        assert(data@[4 * k + 1] == prev[4 * k + 1]);
                        assert(data@[4 * k + 2] == prev[4 * k + 2]);
                        assert(data@[4 * k + 3] == prev[4 * k + 3]);
                    }
                }
            }
            i = i + 1;
        }
        data
    }

    /// Whether halving this image into one of `ow` columns and `oh` rows
    /// reads only pixels inside it.
    pub fn fits_halving(&self, ow: usize, oh: usize) -> (fits: bool)
        requires
            self.wf(),
        ensures
            fits == halving_fits(*self, ow as int, oh as int),
            fits <==> (forall|c: int, r: int|
                0 <= c < 2 * ow && 0 <= r < 2 * oh ==> #[trigger] offset(self.width() as int, c, r)
                    < self@.len()),
    {
        proof {
            lemma_halving_fits_iff_reads_inside(*self, ow as int, oh as int);
        }
        if ow == 0 || oh == 0 {
            return true;
        }
        let ghost fw = self.width() as int;
        let ghost fh = self.height() as int;
        proof {
            if fw == 0 {
                assert(fw * fh == 0) by (nonlinear_arith)
                    requires
                        fw == 0,
                ;
            } else {
                assert((2 * oh - 1) * fw >= 2 * oh - 1) by (nonlinear_arith)
                    requires
                        fw >= 1,
                        oh >= 1,
                ;
            }
        }
        let rows = match (oh - 1).checked_mul(2) {
            Some(r) => r + 1,
            None => return false,
        };
        let cols = match (ow - 1).checked_mul(2) {
            Some(c) => c + 1,
            None => return false,
        };
        let row_start = match rows.checked_mul(self.w) {
            Some(r) => r,
            None => return false,
        };
        match row_start.checked_add(cols) {
            Some(last) => last < self.w * self.h,
            None => false,
        }
    }

    /// Composites `pix` over the pixel at offset `y * w + x` with `over`,
    /// whose arguments are the new pixel and the one it covers, and stores
    /// the result there; nothing else changes.
    pub fn blend_into<F: Fn(P, P) -> P>(&mut self, x: usize, y: usize, pix: &P, over: F)
        requires
            old(self).wf(),
            offset(old(self).width() as int, x as int, y as int) < old(self).width()
                * old(self).height(),
            call_requires(over, (*pix, old(self).pixel(x as int, y as int))),
        ensures
            final(self).wf(),
            final(self).width() == old(self).width(),
            final(self).height() == old(self).height(),
            call_ensures(over, (*pix, old(self).pixel(x as int, y as int)), final(self).pixel(x as int, y as int)),
            final(self)@ == old(self)@.update(
                offset(old(self).width() as int, x as int, y as int),
                final(self).pixel(x as int, y as int),
            ),
    {
        let current = self.get(x, y);
        let blended = over(*pix, current);
        self.set(x, y, &blended);
    }
}

/// After `set` at column `x`, row `y`, the pixel there is the one written and
/// every other pixel of the image is what it was before.
pub proof fn lemma_set_then_get<P>(before: FB<P>, after: FB<P>, x: int, y: int, x2: int, y2: int, pix: P)
    requires
        before.wf(),
        before.in_bounds(x, y),
        before.in_bounds(x2, y2),
        after.width() == before.width(),
        after.height() == before.height(),
        after@ == before@.update(offset(before.width() as int, x, y), pix),
    ensures
        after.wf(),
        after.pixel(x2, y2) == (if x2 == x && y2 == y { pix } else { before.pixel(x2, y2) }),
{
    let w = before.width() as int;
    let h = before.height() as int;
    lemma_offset_in_bounds(w, h, x, y);
    lemma_offset_in_bounds(w, h, x2, y2);
    if offset(w, x, y) == offset(w, x2, y2) {
        lemma_offset_injective(w, x, y, x2, y2);
    }
}


/// Every pixel of `fb` is a value that `colorer` returns for its column and row.
pub open spec fn painted_by<P, F: Fn(usize, usize) -> P>(fb: FB<P>, colorer: F) -> bool {
    forall|x: usize, y: usize|
        #![trigger fb.pixel(x as int, y as int)]
        x < fb.width() && y < fb.height() ==> call_ensures(colorer, (x, y), fb.pixel(x as int, y as int))
}

/// Stores `colorer(x, y)` at column `x`, row `y`, column by column, each
/// column from the top row down.
pub fn render<P: Copy, F: Fn(usize, usize) -> P>(fb: &mut FB<P>, colorer: F)
    requires
        old(fb).wf(),
        forall|x: usize, y: usize|
            x < old(fb).width() && y < old(fb).height() ==> call_requires(colorer, (x, y)),
    ensures
        final(fb).wf(),
        final(fb).width() == old(fb).width(),
        final(fb).height() == old(fb).height(),
        painted_by(*final(fb), colorer),
{
    let w = fb.w;
    let h = fb.h;
    let mut x: usize = 0;
    while x < w
        invariant
            fb.wf(),
            fb.width() == w,
            fb.height() == h,
            x <= w,
            forall|a: usize, b: usize| a < w && b < h ==> call_requires(colorer, (a, b)),
            forall|a: usize, b: usize|
                #![trigger fb.pixel(a as int, b as int)]
                a < x && b < h ==> call_ensures(colorer, (a, b), fb.pixel(a as int, b as int)),
        decreases w - x,
    {
        let mut y: usize = 0;
        while y < h
            invariant
                fb.wf(),
                fb.width() == w,
                fb.height() == h,
                x < w,
                y <= h,
                forall|a: usize, b: usize| a < w && b < h ==> call_requires(colorer, (a, b)),
                forall|a: usize, b: usize|
                    #![trigger fb.pixel(a as int, b as int)]
                    (a < x && b < h) || (a == x && b < y) ==> call_ensures(
                        colorer,
                        (a, b),
                        fb.pixel(a as int, b as int),
                    ),
            decreases h - y,
        {
            let c = colorer(x, y);
            paint_pixel(fb, x, y, &c);
            y = y + 1;
        }
        x = x + 1;
    }
}

/// Stores `colorer(x, y)` at column `x`, row `y`, column by column, each
/// column from the bottom row up.
pub fn render_shp<P: Copy, F: Fn(usize, usize) -> P>(fb: &mut FB<P>, colorer: F)
    requires
        old(fb).wf(),
        forall|x: usize, y: usize|
            x < old(fb).width() && y < old(fb).height() ==> call_requires(colorer, (x, y)),
    ensures
        final(fb).wf(),
        final(fb).width() == old(fb).width(),
        final(fb).height() == old(fb).height(),
        painted_by(*final(fb), colorer),
{
    let w = fb.w;
    let h = fb.h;
    let mut x: usize = 0;
    while x < w
        invariant
            fb.wf(),
            fb.width() == w,
            fb.height() == h,
            x <= w,
            forall|a: usize, b: usize| a < w && b < h ==> call_requires(colorer, (a, b)),
            forall|a: usize, b: usize|
                #![trigger fb.pixel(a as int, b as int)]
                a < x && b < h ==> call_ensures(colorer, (a, b), fb.pixel(a as int, b as int)),
        decreases w - x,
    {
        let mut y_inv: usize = 0;
        while y_inv < h
            invariant
                fb.wf(),
                fb.width() == w,
                fb.height() == h,
                x < w,
                y_inv <= h,
                forall|a: usize, b: usize| a < w && b < h ==> call_requires(colorer, (a, b)),
                forall|a: usize, b: usize|
                    #![trigger fb.pixel(a as int, b as int)]
                    (a < x && b < h) || (a == x && h - y_inv <= b < h) ==> call_ensures(
                        colorer,
                        (a, b),
                        fb.pixel(a as int, b as int),
                    ),
            decreases h - y_inv,
        {
            let y = h - 1 - y_inv;
            let c = colorer(x, y);
            paint_pixel(fb, x, y, &c);
            y_inv = y_inv + 1;
        }
        x = x + 1;
    }
}

/// Stores `c` at column `x`, row `y` of an image; every other position of
/// the image keeps its pixel.
fn paint_pixel<P: Copy>(fb: &mut FB<P>, x: usize, y: usize, c: &P)
    requires
        old(fb).wf(),
        old(fb).in_bounds(x as int, y as int),
    ensures
        final(fb).wf(),
        final(fb).width() == old(fb).width(),
        final(fb).height() == old(fb).height(),
        forall|a: int, b: int|
            #![trigger final(fb).pixel(a, b)]
            old(fb).in_bounds(a, b) ==> final(fb).pixel(a, b) == (if a == x && b == y {
                *c
            } else {
                old(fb).pixel(a, b)
            }),
{
    proof {
        lemma_offset_in_bounds(fb.width() as int, fb.height() as int, x as int, y as int);
    }
    let ghost before = *fb;
    fb.set(x, y, c);
    proof {
        assert forall|a: int, b: int| #![trigger fb.pixel(a, b)] before.in_bounds(a, b) implies fb.pixel(a, b) == (if a
            == x && b == y {
            *c
        } else {
            before.pixel(a, b)
        }) by {
            lemma_set_then_get(before, *fb, x as int, y as int, a, b, *c);
        }
    }
}


/// Every source pixel that halving reads into an `ow` by `oh` image lies
/// inside `src`: the farthest one, at column `2 * ow - 1`, row `2 * oh - 1`,
/// has an offset below the size of `src`.
pub open spec fn halving_fits<P>(src: FB<P>, ow: int, oh: int) -> bool {
    ow == 0 || oh == 0 || offset(src.width() as int, 2 * ow - 1, 2 * oh - 1) < src.width()
        * src.height()
}

/// Halving `src` into `ow` columns and `oh` rows reads the pixels of
/// columns `0 .. 2 * ow` and rows `0 .. 2 * oh` of `src`; `halving_fits`
/// holds exactly when every one of them has its storage position inside
/// `src`.
pub proof fn lemma_halving_fits_iff_reads_inside<P>(src: FB<P>, ow: int, oh: int)
    requires
        src.wf(),
        0 <= ow,
        0 <= oh,
    ensures
        halving_fits(src, ow, oh) <==> (forall|c: int, r: int|
            0 <= c < 2 * ow && 0 <= r < 2 * oh ==> #[trigger] offset(src.width() as int, c, r)
                < src@.len()),
{
    let w = src.width() as int;
    if halving_fits(src, ow, oh) {
        assert forall|c: int, r: int|
            0 <= c < 2 * ow && 0 <= r < 2 * oh implies #[trigger] offset(w, c, r) < src@.len() by {
            assert(r * w <= (2 * oh - 1) * w) by (nonlinear_arith)
                requires
                    r <= 2 * oh - 1,
                    0 <= w,
            ;
        }
    }
    if ow > 0 && oh > 0 && (forall|c: int, r: int|
        0 <= c < 2 * ow && 0 <= r < 2 * oh ==> #[trigger] offset(w, c, r) < src@.len()) {
        assert(offset(w, 2 * ow - 1, 2 * oh - 1) < src@.len());
    }
}

/// `r` is a possible result of mixing the top pair `p00`, `p10`, mixing the
/// bottom pair `p01`, `p11`, and mixing those two results.
pub open spec fn quad_mixed<P, M: Fn(P, P) -> P>(mix: M, p00: P, p10: P, p01: P, p11: P, r: P) -> bool {
    exists|a: P, b: P|
        #![trigger call_ensures(mix, (p00, p10), a), call_ensures(mix, (p01, p11), b)]
        call_ensures(mix, (p00, p10), a) && call_ensures(mix, (p01, p11), b) && call_ensures(
            mix,
            (a, b),
            r,
        )
}

/// Pixel `x`, `y` of `dst` mixes the two-by-two block of `src` whose top
/// left corner is column `2 * x`, row `2 * y`.
pub open spec fn halved_at<P, M: Fn(P, P) -> P>(src: FB<P>, dst: FB<P>, mix: M, x: int, y: int) -> bool {
    quad_mixed(
        mix,
        src.pixel(2 * x, 2 * y),
        src.pixel(2 * x + 1, 2 * y),
        src.pixel(2 * x, 2 * y + 1),
        src.pixel(2 * x + 1, 2 * y + 1),
        dst.pixel(x, y),
    )
}

/// The offsets of the four pixels of a block that halving reads stay below
/// the farthest one.
proof fn lemma_block_in_bounds(fw: int, fh: int, ow: int, oh: int, x: int, y: int)
    requires
        0 <= x < ow,
        0 <= y < oh,
        0 <= fw,
        offset(fw, 2 * ow - 1, 2 * oh - 1) < fw * fh,
    ensures
        0 <= offset(fw, 2 * x, 2 * y),
        offset(fw, 2 * x, 2 * y) <= offset(fw, 2 * x + 1, 2 * y + 1),
        offset(fw, 2 * x + 1, 2 * y) <= offset(fw, 2 * x + 1, 2 * y + 1),
        offset(fw, 2 * x, 2 * y + 1) <= offset(fw, 2 * x + 1, 2 * y + 1),
        offset(fw, 2 * x + 1, 2 * y + 1) < fw * fh,
        2 * y + 1 <= offset(fw, 2 * x + 1, 2 * y + 1),
{
    if fw == 0 {
        assert(fw * fh == 0) by (nonlinear_arith)
            requires
                fw == 0,
        ;
    }
    assert(2 * y + 1 <= (2 * y + 1) * fw) by (nonlinear_arith)
        requires
            0 <= y,
            1 <= fw,
    ;
    assert(0 <= (2 * y) * fw) by (nonlinear_arith)
        requires
            0 <= y,
            0 <= fw,
    ;
    assert((2 * y + 1) * fw == (2 * y) * fw + fw) by (nonlinear_arith);
    assert((2 * y + 1) * fw <= (2 * oh - 1) * fw) by (nonlinear_arith)
        requires
            2 * y + 1 <= 2 * oh - 1,
            0 <= fw,
    ;
}

/// Shrinks `fb` into `ofb` by half in each direction: for every column `x`
/// and row `y` of `ofb`, the pixel there becomes
/// `mix(mix(a, b), mix(c, d))` where `a`, `b` are the pixels at columns
/// `2x`, `2x + 1` of row `2y` of `fb` and `c`, `d` those of row `2y + 1`.
pub fn downsample_halve<P: Copy, M: Fn(P, P) -> P>(fb: &FB<P>, ofb: &mut FB<P>, mix: M)
    requires
        fb.wf(),
        old(ofb).wf(),
        halving_fits(*fb, old(ofb).width() as int, old(ofb).height() as int),
        forall|a: P, b: P| call_requires(mix, (a, b)),
    ensures
        final(ofb).wf(),
        final(ofb).width() == old(ofb).width(),
        final(ofb).height() == old(ofb).height(),
        forall|x: int, y: int|
            #![trigger final(ofb).pixel(x, y)]
            #![trigger halved_at(*fb, *final(ofb), mix, x, y)]
            final(ofb).in_bounds(x, y) ==> halved_at(*fb, *final(ofb), mix, x, y),
{
    let ow = ofb.w;
    let oh = ofb.h;
    let ghost fw = fb.width() as int;
    let ghost fh = fb.height() as int;
    let mut x: usize = 0;
    while x < ow
        invariant
            fb.wf(),
            ofb.wf(),
            ofb.width() == ow,
            ofb.height() == oh,
            fw == fb.width(),
            fh == fb.height(),
            halving_fits(*fb, ow as int, oh as int),
            forall|a: P, b: P| call_requires(mix, (a, b)),
            x <= ow,
            forall|a: int, b: int|
                #![trigger ofb.pixel(a, b)]
                0 <= a < x && 0 <= b < oh ==> halved_at(*fb, *ofb, mix, a, b),
        decreases ow - x,
    {
        let mut y: usize = 0;
        while y < oh
            invariant
                fb.wf(),
                ofb.wf(),
                ofb.width() == ow,
                ofb.height() == oh,
                fw == fb.width(),
                fh == fb.height(),
                halving_fits(*fb, ow as int, oh as int),
                forall|a: P, b: P| call_requires(mix, (a, b)),
                x < ow,
                y <= oh,
                forall|a: int, b: int|
                    #![trigger ofb.pixel(a, b)]
                    (0 <= a < x && 0 <= b < oh) || (a == x && 0 <= b < y) ==> halved_at(
                        *fb,
                        *ofb,
                        mix,
                        a,
                        b,
                    ),
            decreases oh - y,
        {
            proof {
                lemma_block_in_bounds(fw, fh, ow as int, oh as int, x as int, y as int);
            }
            let ox = x * 2;
            let oy = y * 2;
            let top = mix(fb.get(ox, oy), fb.get(ox + 1, oy));
            let bottom = mix(fb.get(ox, oy + 1), fb.get(ox + 1, oy + 1));
            let combined = mix(top, bottom);
            let ghost before = *ofb;
            paint_pixel(ofb, x, y, &combined);
            proof {
                assert(halved_at(*fb, *ofb, mix, x as int, y as int));
                assert forall|a: int, b: int|
                    #![trigger ofb.pixel(a, b)]
                    (0 <= a < x && 0 <= b < oh) || (a == x && 0 <= b < y + 1) implies halved_at(
                        *fb,
                        *ofb,
                        mix,
                        a,
                        b,
                    ) by {
                    if !(a == x && b == y) {
                        assert(before.pixel(a, b) == ofb.pixel(a, b));
                        assert(halved_at(*fb, before, mix, a, b));
                    }
                }
            }
            y = y + 1;
        }
        x = x + 1;
    }
}

/// Every position of storage belongs to one column and row of the image.
proof fn lemma_offset_covers(w: int, h: int, i: int)
    requires
        0 <= w,
        0 <= h,
        0 <= i < w * h,
    ensures
        0 < w,
        0 <= i % w < w,
        0 <= i / w < h,
        offset(w, i % w, i / w) == i,
{
    if w == 0 {
        assert(w * h == 0) by (nonlinear_arith)
            requires
                w == 0,
        ;
    }
    vstd::arithmetic::div_mod::lemma_fundamental_div_mod(i, w);
    assert((i / w) * w == w * (i / w)) by (nonlinear_arith);
    assert(0 <= i / w) by (nonlinear_arith)
        requires
            0 <= i,
            0 < w,
    ;
    assert(i / w < h) by (nonlinear_arith)
        requires
            i == w * (i / w) + i % w,
            0 <= i % w,
            i < w * h,
            0 < w,
    ;
}

/// Two images of the same size painted with the same colorer, by `render`
/// or by `render_shp` in either combination, are the same image when the
/// colorer always gives the same pixel for the same column and row.
pub proof fn lemma_paintings_agree<P, F: Fn(usize, usize) -> P>(a: FB<P>, b: FB<P>, colorer: F)
    requires
        a.wf(),
        b.wf(),
        a.width() == b.width(),
        a.height() == b.height(),
        painted_by(a, colorer),
        painted_by(b, colorer),
        forall|x: usize, y: usize, p: P, q: P|
            call_ensures(colorer, (x, y), p) && call_ensures(colorer, (x, y), q) ==> p == q,
    ensures
        a@ == b@,
{
    let w = a.width() as int;
    let h = a.height() as int;
    assert forall|i: int| 0 <= i < a@.len() implies a@[i] == b@[i] by {
        lemma_offset_covers(w, h, i);
        let x = (i % w) as usize;
        let y = (i / w) as usize;
        assert(a.pixel(x as int, y as int) == a@[i]);
        assert(b.pixel(x as int, y as int) == b@[i]);
    }
    assert(a@ =~= b@);
}

/// Pixel `x`, `y` of `fb` mixes, as `downsample_halve` does, four values
/// that `colorer` gives for columns `2x`, `2x + 1` and rows `2y`, `2y + 1`
/// of an image twice as wide and twice as tall.
pub open spec fn supersampled_at<P, F: Fn(usize, usize) -> P, M: Fn(P, P) -> P>(
    fb: FB<P>,
    colorer: F,
    mix: M,
    x: int,
    y: int,
) -> bool {
    exists|p00: P, p10: P, p01: P, p11: P|
        #![trigger call_ensures(colorer, ((2 * x) as usize, (2 * y) as usize), p00), call_ensures(colorer, ((2 * x + 1) as usize, (2 * y) as usize), p10), call_ensures(colorer, ((2 * x) as usize, (2 * y + 1) as usize), p01), call_ensures(colorer, ((2 * x + 1) as usize, (2 * y + 1) as usize), p11)]
        {
            &&& call_ensures(colorer, ((2 * x) as usize, (2 * y) as usize), p00)
            &&& call_ensures(colorer, ((2 * x + 1) as usize, (2 * y) as usize), p10)
            &&& call_ensures(colorer, ((2 * x) as usize, (2 * y + 1) as usize), p01)
            &&& call_ensures(colorer, ((2 * x + 1) as usize, (2 * y + 1) as usize), p11)
            &&& quad_mixed(mix, p00, p10, p01, p11, fb.pixel(x, y))
        }
}

/// Renders `fb` at twice its width and height, into an image first filled
/// with `fill`, with `colorer` taking the column and row of that larger
/// image, then shrinks the result into `fb` with `downsample_halve`.
pub fn upsample_render<P: Copy, F: Fn(usize, usize) -> P, M: Fn(P, P) -> P>(
    fb: &mut FB<P>,
    fill: P,
    colorer: F,
    mix: M,
)
    requires
        old(fb).wf(),
        old(fb).width() * 2 <= usize::MAX,
        old(fb).height() * 2 <= usize::MAX,
        (old(fb).width() * 2) * (old(fb).height() * 2) <= usize::MAX,
        forall|x: usize, y: usize|
            x < old(fb).width() * 2 && y < old(fb).height() * 2 ==> call_requires(colorer, (x, y)),
        forall|a: P, b: P| call_requires(mix, (a, b)),
    ensures
        final(fb).wf(),
        final(fb).width() == old(fb).width(),
        final(fb).height() == old(fb).height(),
        forall|x: int, y: int|
            #![trigger supersampled_at(*final(fb), colorer, mix, x, y)]
            final(fb).in_bounds(x, y) ==> supersampled_at(*final(fb), colorer, mix, x, y),
{
    let w = fb.w;
    let h = fb.h;
    let mut ufb = FB::new(w * 2, h * 2, fill);
    render(&mut ufb, colorer);
    proof {
        let uw = (2 * w) as int;
        let uh = (2 * h) as int;
        if w > 0 && h > 0 {
            assert(offset(uw, 2 * w - 1, 2 * h - 1) < uw * uh) by (nonlinear_arith)
                requires
                    uw == 2 * w,
                    uh == 2 * h,
                    w > 0,
                    h > 0,
            ;
        }
    }
    downsample_halve(&ufb, fb, mix);
    proof {
        assert forall|x: int, y: int|
            #![trigger supersampled_at(*fb, colorer, mix, x, y)]
            fb.in_bounds(x, y) implies supersampled_at(*fb, colorer, mix, x, y) by {
            let x00 = (2 * x) as usize;
            let y00 = (2 * y) as usize;
            let x10 = (2 * x + 1) as usize;
            let y01 = (2 * y + 1) as usize;
            assert(halved_at(ufb, *fb, mix, x, y));
            assert(call_ensures(colorer, (x00, y00), ufb.pixel(x00 as int, y00 as int)));
            assert(call_ensures(colorer, (x10, y00), ufb.pixel(x10 as int, y00 as int)));
            assert(call_ensures(colorer, (x00, y01), ufb.pixel(x00 as int, y01 as int)));
            assert(call_ensures(colorer, (x10, y01), ufb.pixel(x10 as int, y01 as int)));
        }
    }
}

/// In an image painted by `colorer`, the pixel stored at position
/// `y * w + x` is a value that `colorer(x, y)` returns.
pub proof fn lemma_painted_pixel<P, F: Fn(usize, usize) -> P>(fb: FB<P>, colorer: F, x: usize, y: usize)
    requires
        painted_by(fb, colorer),
        x < fb.width(),
        y < fb.height(),
    ensures
        call_ensures(colorer, (x, y), fb@[y * fb.width() + x]),
{
    assert(fb.pixel(x as int, y as int) == fb@[y * fb.width() + x]);
}

/// Pixel `x`, `y` of a halved image, stored at `y * dw + x`, is
/// `mix(mix(a, b), mix(c, d))` where `a`, `b` are stored at
/// `2y * w + 2x` and `2y * w + 2x + 1` of the source and `c`, `d` at
/// `(2y + 1) * w + 2x` and `(2y + 1) * w + 2x + 1`.
pub proof fn lemma_halved_pixel<P, M: Fn(P, P) -> P>(src: FB<P>, dst: FB<P>, mix: M, x: int, y: int)
    requires
        halved_at(src, dst, mix, x, y),
    ensures
        exists|a: P, b: P|
            #![trigger call_ensures(mix, (src@[(2 * y) * src.width() + 2 * x], src@[(2 * y) * src.width() + 2 * x + 1]), a), call_ensures(mix, (src@[(2 * y + 1) * src.width() + 2 * x], src@[(2 * y + 1) * src.width() + 2 * x + 1]), b)]
            {
                &&& call_ensures(
                    mix,
                    (src@[(2 * y) * src.width() + 2 * x], src@[(2 * y) * src.width() + 2 * x + 1]),
                    a,
                )
                &&& call_ensures(
                    mix,
                    (
                        src@[(2 * y + 1) * src.width() + 2 * x],
                        src@[(2 * y + 1) * src.width() + 2 * x + 1],
                    ),
                    b,
                )
                &&& call_ensures(mix, (a, b), dst@[y * dst.width() + x])
            },
{
    let w = src.width() as int;
    let p00 = src.pixel(2 * x, 2 * y);
    let p10 = src.pixel(2 * x + 1, 2 * y);
    let p01 = src.pixel(2 * x, 2 * y + 1);
    let p11 = src.pixel(2 * x + 1, 2 * y + 1);
    let (a, b) = choose|a: P, b: P|
        #![trigger call_ensures(mix, (p00, p10), a), call_ensures(mix, (p01, p11), b)]
        call_ensures(mix, (p00, p10), a) && call_ensures(mix, (p01, p11), b) && call_ensures(
            mix,
            (a, b),
            dst.pixel(x, y),
        );
    assert(call_ensures(mix, (src@[(2 * y) * w + 2 * x], src@[(2 * y) * w + 2 * x + 1]), a));
    assert(call_ensures(mix, (src@[(2 * y + 1) * w + 2 * x], src@[(2 * y + 1) * w + 2 * x + 1]), b));
}

/// Pixel `x`, `y` of a supersampled image, stored at `y * w + x`, is
/// `mix(mix(a, b), mix(c, d))` for values `a`, `b`, `c`, `d` that `colorer`
/// returns at columns `2x`, `2x + 1` of row `2y` and at the same columns of
/// row `2y + 1`.
pub proof fn lemma_supersampled_pixel<P, F: Fn(usize, usize) -> P, M: Fn(P, P) -> P>(
    fb: FB<P>,
    colorer: F,
    mix: M,
    x: int,
    y: int,
)
    requires
        supersampled_at(fb, colorer, mix, x, y),
    ensures
        exists|p00: P, p10: P, p01: P, p11: P, a: P, b: P|
            #![trigger call_ensures(colorer, ((2 * x) as usize, (2 * y) as usize), p00), call_ensures(colorer, ((2 * x + 1) as usize, (2 * y) as usize), p10), call_ensures(colorer, ((2 * x) as usize, (2 * y + 1) as usize), p01), call_ensures(colorer, ((2 * x + 1) as usize, (2 * y + 1) as usize), p11), call_ensures(mix, (p00, p10), a), call_ensures(mix, (p01, p11), b)]
            {
                &&& call_ensures(colorer, ((2 * x) as usize, (2 * y) as usize), p00)
                &&& call_ensures(colorer, ((2 * x + 1) as usize, (2 * y) as usize), p10)
                &&& call_ensures(colorer, ((2 * x) as usize, (2 * y + 1) as usize), p01)
                &&& call_ensures(colorer, ((2 * x + 1) as usize, (2 * y + 1) as usize), p11)
                &&& call_ensures(mix, (p00, p10), a)
                &&& call_ensures(mix, (p01, p11), b)
                &&& call_ensures(mix, (a, b), fb@[y * fb.width() + x])
            },
{
    let (p00, p10, p01, p11) = choose|p00: P, p10: P, p01: P, p11: P|
        {
            &&& call_ensures(colorer, ((2 * x) as usize, (2 * y) as usize), p00)
            &&& call_ensures(colorer, ((2 * x + 1) as usize, (2 * y) as usize), p10)
            &&& call_ensures(colorer, ((2 * x) as usize, (2 * y + 1) as usize), p01)
            &&& call_ensures(colorer, ((2 * x + 1) as usize, (2 * y + 1) as usize), p11)
            &&& quad_mixed(mix, p00, p10, p01, p11, fb.pixel(x, y))
        };
    let (a, b) = choose|a: P, b: P|
        call_ensures(mix, (p00, p10), a) && call_ensures(mix, (p01, p11), b) && call_ensures(
            mix,
            (a, b),
            fb.pixel(x, y),
        );
    assert(call_ensures(mix, (a, b), fb@[y * fb.width() + x]));
}

} // verus!
