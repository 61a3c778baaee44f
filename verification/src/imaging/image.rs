//! Interleaved 8-bit images.

use vstd::prelude::*;

use crate::error::{fails, ErrorKind, VisionError};

verus! {

/// What an image is: its size and its bytes, row by row, pixel by pixel, channel by channel.
pub struct Picture {
    pub width: int,
    pub height: int,
    pub channels: int,
    pub data: Seq<u8>,
}

impl Picture {
    /// Where the byte of a channel of a pixel stands.
    pub open spec fn offset(self, x: int, y: int, c: int) -> int {
        (y * self.width + x) * self.channels + c
    }

    /// The byte of a channel of a pixel.
    pub open spec fn at(self, x: int, y: int, c: int) -> u8 {
        self.data[self.offset(x, y, c)]
    }

    /// Whether the picture has this channel of this pixel.
    pub open spec fn has(self, x: int, y: int, c: int) -> bool {
        0 <= x < self.width && 0 <= y < self.height && 0 <= c < self.channels
    }

    /// Whether there is one byte for each channel of each pixel.
    pub open spec fn wf(self) -> bool {
        &&& self.width >= 0
        &&& self.height >= 0
        &&& self.channels >= 0
        &&& self.data.len() == self.width * self.height * self.channels
    }

    /// Whether the size is the given one.
    pub open spec fn sized(self, width: int, height: int, channels: int) -> bool {
        self.width == width && self.height == height && self.channels == channels
    }
}

/// Whether a rectangle is not empty and lies inside a picture.
pub open spec fn rectangle_inside(p: Picture, x: int, y: int, width: int, height: int) -> bool {
    &&& width > 0
    &&& height > 0
    &&& 0 <= x
    &&& 0 <= y
    &&& x + width <= p.width
    &&& y + height <= p.height
}

/// Whether `part` is the rectangle of `whole` at the given place.
pub open spec fn is_part_at(part: Picture, whole: Picture, left: int, top: int) -> bool {
    &&& part.channels == whole.channels
    &&& forall|x: int, y: int, c: int| #[trigger]
        part.has(x, y, c) ==> part.at(x, y, c) == whole.at(left + x, top + y, c)
}

/// Whether `after` is `before` with `patch` laid over it at the given place.
pub open spec fn is_pasted(after: Picture, before: Picture, patch: Picture, left: int, top: int) -> bool {
    &&& after.sized(before.width, before.height, before.channels)
    &&& after.wf()
    &&& forall|x: int, y: int, c: int| #[trigger]
        after.has(x, y, c) ==> after.at(x, y, c) == if patch.has(x - left, y - top, c) {
            patch.at(x - left, y - top, c)
        } else {
            before.at(x, y, c)
        }
}

/// The place of a byte lies inside the picture.
pub proof fn lemma_offset(p: Picture, x: int, y: int, c: int)
    requires
        p.has(x, y, c),
    ensures
        0 <= p.offset(x, y, c) < p.width * p.height * p.channels,
        0 <= y * p.width + x < p.width * p.height,
        0 <= y * p.width,
        0 <= (y * p.width + x) * p.channels,
{
    let (w, h, ch) = (p.width, p.height, p.channels);
    assert(0 <= y * w && y * w + x < w * h) by (nonlinear_arith)
        requires
            0 <= x < w,
            0 <= y < h,
    ;
    let i = y * w + x;
    let area = w * h;
    assert(0 <= i * ch && i * ch + c < area * ch) by (nonlinear_arith)
        requires
            0 <= i < area,
            0 <= c < ch,
    ;
}

/// Every byte of a picture belongs to one channel of one pixel.
pub proof fn lemma_byte_has_place(p: Picture, i: int) -> (place: (int, int, int))
    requires
        p.wf(),
        0 <= i < p.data.len(),
    ensures
        p.has(place.0, place.1, place.2),
        p.offset(place.0, place.1, place.2) == i,
{
    let (w, h, ch) = (p.width, p.height, p.channels);
    let area = w * h;
    assert(area >= 0) by (nonlinear_arith)
        requires
            w >= 0,
            h >= 0,
            area == w * h,
    ;
    assert(ch > 0 && area > 0) by (nonlinear_arith)
        requires
            area * ch > 0,
            area >= 0,
            ch >= 0,
    ;
    assert(w > 0 && h > 0) by (nonlinear_arith)
        requires
            w * h > 0,
            w >= 0,
            h >= 0,
    ;
    let q = i / ch;
    let c = i % ch;
    vstd::arithmetic::div_mod::lemma_fundamental_div_mod(i, ch);
    vstd::arithmetic::div_mod::lemma_mod_bound(i, ch);
    assert(0 <= q < area) by (nonlinear_arith)
        requires
            i == ch * q + c,
            0 <= c < ch,
            0 <= i < area * ch,
    ;
    let y = q / w;
    let x = q % w;
    vstd::arithmetic::div_mod::lemma_fundamental_div_mod(q, w);
    vstd::arithmetic::div_mod::lemma_mod_bound(q, w);
    assert(0 <= y < h) by (nonlinear_arith)
        requires
            q == w * y + x,
            0 <= x < w,
            0 <= q < w * h,
    ;
    assert(p.offset(x, y, c) == i) by (nonlinear_arith)
        requires
            p.offset(x, y, c) == (y * w + x) * ch + c,
            q == w * y + x,
            i == ch * q + c,
    ;
    (x, y, c)
}

/// A picture is its size and the bytes of its pixels.
pub proof fn picture_is_its_pixels(a: Picture, b: Picture)
    requires
        a.wf(),
        b.wf(),
        a.sized(b.width, b.height, b.channels),
        forall|x: int, y: int, c: int| #[trigger] a.has(x, y, c) ==> a.at(x, y, c) == b.at(x, y, c),
    ensures
        a == b,
{
    assert forall|i: int| 0 <= i < a.data.len() implies a.data[i] == b.data[i] by {
        let (x, y, c) = lemma_byte_has_place(a, i);
        assert(a.at(x, y, c) == b.at(x, y, c));
    }
    assert(a.data =~= b.data);
}

/// Two channels of pixels at one place are the same.
pub proof fn lemma_offset_is_injective(p: Picture, x: int, y: int, c: int, x2: int, y2: int, c2: int)
    requires
        p.has(x, y, c),
        p.has(x2, y2, c2),
        p.offset(x, y, c) == p.offset(x2, y2, c2),
    ensures
        x == x2 && y == y2 && c == c2,
{
    let (i, j) = (y * p.width + x, y2 * p.width + x2);
    let (w, ch) = (p.width, p.channels);
    assert(i == j && c == c2) by (nonlinear_arith)
        requires
            i * ch + c == j * ch + c2,
            0 <= c < ch,
            0 <= c2 < ch,
    ;
    assert(y == y2 && x == x2) by (nonlinear_arith)
        requires
            y * w + x == y2 * w + x2,
            0 <= x < w,
            0 <= x2 < w,
    ;
}

/// An 8-bit image. With three or four channels the order is blue, green, red and alpha.
#[derive(Debug)]
pub struct Image {
    width: usize,
    height: usize,
    channels: usize,
    data: Vec<u8>,
}

impl Clone for Image {
    fn clone(&self) -> (r: Self)
        ensures
            r@ == self@,
    {
        let data = self.data.clone();
        assert(data@ =~= self.data@);
        Image { width: self.width, height: self.height, channels: self.channels, data }
    }
}

impl View for Image {
    type V = Picture;

    closed spec fn view(&self) -> Picture {
        Picture {
            width: self.width as int,
            height: self.height as int,
            channels: self.channels as int,
            data: self.data@,
        }
    }
}

impl Image {
    /// Whether there is one byte for each channel of each pixel.
    pub open spec fn wf(self) -> bool {
        self@.wf()
    }

    /// The bounds that the machine sets to a size.
    pub proof fn lemma_size_fits(&self)
        ensures
            0 <= self@.width <= usize::MAX,
            0 <= self@.height <= usize::MAX,
            0 <= self@.channels <= usize::MAX,
            self@.data.len() <= usize::MAX,
    {
        assert(self.data.len() <= usize::MAX);
    }

    /// A black image.
    pub fn new(width: usize, height: usize, channels: usize) -> (image: Image)
        requires
            width * height <= usize::MAX,
            width * height * channels <= usize::MAX,
        ensures
            image.wf(),
            image@.sized(width as int, height as int, channels as int),
            forall|i: int| 0 <= i < image@.data.len() ==> image@.data[i] == 0,
    {
        Image::filled(width, height, channels, 0)
    }

    /// An image with one value everywhere.
    pub fn filled(width: usize, height: usize, channels: usize, value: u8) -> (image: Image)
        requires
            width * height <= usize::MAX,
            width * height * channels <= usize::MAX,
        ensures
            image.wf(),
            image@.sized(width as int, height as int, channels as int),
            forall|i: int| 0 <= i < image@.data.len() ==> image@.data[i] == value,
    {
        let data: Vec<u8> = vec![value; width * height * channels];
        Image { width, height, channels, data }
    }

    /// An image of the given bytes, if their number is that of the size.
    pub fn from_raw(width: usize, height: usize, channels: usize, data: Vec<u8>) -> (r: Result<Image, VisionError>)
        ensures
            data.len() == width * height * channels ==> r is Ok && r->Ok_0.wf() && r->Ok_0@.sized(
                width as int,
                height as int,
                channels as int,
            ) && r->Ok_0@.data == data@,
            data.len() != width * height * channels ==> fails(
                r,
                ErrorKind::Image,
                "image buffer does not match its size"@,
            ),
    {
        let expected = match width.checked_mul(height) {
            Some(area) => area.checked_mul(channels),
            None => {
                if channels == 0 {
                    Some(0)
                } else {
                    None
                }
            },
        };
        proof {
            let (w, h, ch) = (width as int, height as int, channels as int);
            if w * h > usize::MAX && ch > 0 {
                assert(w * h * ch > usize::MAX) by (nonlinear_arith)
                    requires
                        w * h > usize::MAX,
                        ch > 0,
                ;
            }
            if ch == 0 {
                assert(w * h * ch == 0) by (nonlinear_arith)
                    requires
                        ch == 0,
                ;
            }
        }
        if expected == Some(data.len()) {
            Ok(Image { width, height, channels, data })
        } else {
            Err(VisionError::image(String::from_str("image buffer does not match its size")))
        }
    }

    /// The number of columns.
    pub fn width(&self) -> (n: usize)
        ensures
            n == self@.width,
    {
        self.width
    }

    /// The number of rows.
    pub fn height(&self) -> (n: usize)
        ensures
            n == self@.height,
    {
        self.height
    }

    /// The number of bytes of a pixel.
    pub fn channels(&self) -> (n: usize)
        ensures
            n == self@.channels,
    {
        self.channels
    }

    /// The bytes.
    pub fn data(&self) -> (bytes: &Vec<u8>)
        ensures
            bytes@ == self@.data,
    {
        &self.data
    }

    /// Whether there are no bytes.
    pub fn is_empty(&self) -> (r: bool)
        ensures
            r == (self@.data.len() == 0),
    {
        self.data.len() == 0
    }

    /// Writes one pixel.
    pub fn set_pixel(&mut self, x: usize, y: usize, pixel: &[u8])
        requires
            old(self).wf(),
            x < old(self)@.width,
            y < old(self)@.height,
            pixel.len() == old(self)@.channels,
        ensures
            final(self).wf(),
            final(self)@.sized(old(self)@.width, old(self)@.height, old(self)@.channels),
            forall|i: int, j: int, c: int| #[trigger]
                final(self)@.has(i, j, c) ==> final(self)@.at(i, j, c) == if i == x && j == y {
                    pixel@[c]
                } else {
                    old(self)@.at(i, j, c)
                },
    {
        let ghost before = self@;
        proof {
            self.lemma_size_fits();
        }
        let mut k: usize = 0;
        while k < self.channels
            invariant
                self.wf(),
                before.wf(),
                self@.sized(before.width, before.height, before.channels),
                x < before.width,
                y < before.height,
                k <= self.channels,
                pixel.len() == before.channels,
                before.data.len() <= usize::MAX,
                forall|i: int, j: int, c: int| #[trigger]
                    before.has(i, j, c) ==> self@.at(i, j, c) == if i == x && j == y && c < k {
                        pixel@[c]
                    } else {
                        before.at(i, j, c)
                    },
            decreases self.channels - k,
        {
            proof {
                lemma_offset(before, x as int, y as int, k as int);
                assert(before.width * before.height <= usize::MAX) by (nonlinear_arith)
                    requires
                        before.width * before.height * before.channels <= usize::MAX,
                        before.channels >= 1,
                        before.width * before.height >= 0,
                ;
            }
            let at = (y * self.width + x) * self.channels + k;
            let ghost prior = self@;
            self.data.set(at, pixel[k]);
            proof {
                assert forall|i: int, j: int, c: int| #[trigger] before.has(i, j, c) implies self@.at(i, j, c) == if i
                    == x && j == y && c < k + 1 {
                    pixel@[c]
                } else {
                    before.at(i, j, c)
                } by {
                    lemma_offset(before, i, j, c);
                    assert(prior.at(i, j, c) == prior.data[before.offset(i, j, c)]);
                    if before.offset(i, j, c) == at {
                        lemma_offset_is_injective(before, i, j, c, x as int, y as int, k as int);
                    }
                }
            }
            k += 1;
        }
        assert forall|i: int, j: int, c: int| #[trigger] self@.has(i, j, c) implies self@.at(i, j, c) == if i == x && j
            == y {
            pixel@[c]
        } else {
            before.at(i, j, c)
        } by {
            assert(before.has(i, j, c));
        }
    }

    /// The rectangle at the given place.
    pub fn crop(&self, x: usize, y: usize, width: usize, height: usize) -> (r: Result<Image, VisionError>)
        requires
            self.wf(),
        ensures
            rectangle_inside(self@, x as int, y as int, width as int, height as int) ==> r is Ok && r->Ok_0.wf()
                && r->Ok_0@.sized(width as int, height as int, self@.channels) && is_part_at(
                r->Ok_0@,
                self@,
                x as int,
                y as int,
            ),
            !rectangle_inside(self@, x as int, y as int, width as int, height as int) ==> fails(
                r,
                ErrorKind::Image,
                "crop rectangle is empty or outside the image"@,
            ),
    {
        if width == 0 || height == 0 || x > self.width || y > self.height || width > self.width - x || height
            > self.height - y {
            return Err(VisionError::image(String::from_str("crop rectangle is empty or outside the image")));
        }
        let ghost target = Picture {
            width: width as int,
            height: height as int,
            channels: self.channels as int,
            data: Seq::empty(),
        };
        let ghost row_len = width * self.channels;
        let mut data: Vec<u8> = Vec::new();
        let mut row: usize = 0;
        proof {
            self.lemma_size_fits();
            assert(width * self.channels * 0 == 0);
        }
        while row < height
            invariant
                self.wf(),
                self@.data.len() <= usize::MAX,
                width > 0,
                x + width <= self.width,
                y + height <= self.height,
                row <= height,
                row_len == width * self.channels,
                target.sized(width as int, height as int, self.channels as int),
                data.len() == row * row_len,
                forall|i: int, j: int, c: int| #[trigger]
                    target.has(i, j, c) && j < row ==> data@[target.offset(i, j, c)] == self@.at(x + i, y + j, c),
            decreases height - row,
        {
            self.push_row(&mut data, x, y, width, row, Ghost(target));
            proof {
                assert((row + 1) * row_len == row * row_len + row_len) by (nonlinear_arith);
            }
            row += 1;
        }
        let image = Image { width, height, channels: self.channels, data };
        proof {
            assert(height * row_len == width * height * self.channels) by (nonlinear_arith)
                requires
                    row_len == width * self.channels,
            ;
            assert forall|i: int, j: int, c: int| #[trigger] image@.has(i, j, c) implies image@.at(i, j, c) == self@.at(
                x + i,
                y + j,
                c,
            ) by {
                assert(target.has(i, j, c));
                assert(target.offset(i, j, c) == image@.offset(i, j, c));
            }
        }
        Ok(image)
    }

    /// Appends one row of a rectangle.
    fn push_row(&self, data: &mut Vec<u8>, x: usize, y: usize, width: usize, row: usize, Ghost(target): Ghost<Picture>)
        requires
            self.wf(),
            x + width <= self@.width,
            y + row < self@.height,
            width > 0,
            target.width == width,
            target.channels == self@.channels,
            row < target.height,
            old(data).len() == row * (width * self@.channels),
        ensures
            final(data).len() == old(data).len() + width * self@.channels,
            forall|k: int| 0 <= k < old(data).len() ==> final(data)@[k] == old(data)@[k],
            forall|i: int, j: int, c: int| #[trigger]
                target.has(i, j, c) && j < row ==> final(data)@[target.offset(i, j, c)] == old(data)@[target.offset(
                    i,
                    j,
                    c,
                )],
            forall|i: int, j: int, c: int| #[trigger]
                target.has(i, j, c) && j == row ==> final(data)@[target.offset(i, j, c)] == self@.at(x + i, y + j, c),
    {
        let ghost start = data@;
        let ghost row_len = width * self.channels;
        if self.channels == 0 {
            assert(width * self.channels == 0);
            return ;
        }
        proof {
            self.lemma_size_fits();
            lemma_offset(self@, x as int, y + row, 0);
            lemma_offset(self@, x + width - 1, y + row, self.channels - 1);
            assert(self@.width * self@.height <= usize::MAX) by (nonlinear_arith)
                requires
                    self@.width * self@.height * self@.channels <= usize::MAX,
                    self@.channels >= 1,
                    self@.width * self@.height >= 0,
            ;
        }
        let first = ((y + row) * self.width + x) * self.channels;
        proof {
            assert((x + width - 1 + (y + row) * self.width) * self.channels + self.channels == first + row_len)
                by (nonlinear_arith)
                requires
                    first == ((y + row) * self.width + x) * self.channels,
                    row_len == width * self.channels,
            ;
            assert(row_len >= 0) by (nonlinear_arith)
                requires
                    row_len == width * self.channels,
            ;
        }
        let len = width * self.channels;
        let mut k: usize = 0;
        while k < len
            invariant
                self.wf(),
                len == row_len,
                first + row_len <= self@.data.len(),
                self@.data.len() <= usize::MAX,
                k <= row_len,
                data.len() == start.len() + k,
                forall|i: int| 0 <= i < start.len() ==> data@[i] == start[i],
                forall|n: int|
                    start.len() <= n < start.len() + k ==> #[trigger] data@[n] == self@.data[first + n - start.len()],
            decreases row_len - k,
        {
            data.push(self.data[first + k]);
            k += 1;
        }
        proof {
            assert forall|i: int, j: int, c: int| #[trigger] target.has(i, j, c) && j < row implies data@[target.offset(
                i,
                j,
                c,
            )] == start[target.offset(i, j, c)] by {
                let upper = Picture { height: row as int, ..target };
                assert(upper.has(i, j, c));
                lemma_offset(upper, i, j, c);
                assert(upper.width * upper.height * upper.channels == start.len()) by (nonlinear_arith)
                    requires
                        upper.width == width,
                        upper.height == row,
                        upper.channels == self@.channels,
                        start.len() == row * (width * self@.channels),
                ;
            }
            assert forall|i: int, j: int, c: int| #[trigger] target.has(i, j, c) && j == row implies data@[target.offset(
                i,
                j,
                c,
            )] == self@.at(x + i, y + j, c) by {
                let line = Picture { height: 1, ..target };
                assert(line.has(i, 0, c));
                lemma_offset(line, i, 0, c);
                let t = i * target.channels + c;
                assert(line.offset(i, 0, c) == t);
                assert(line.width * line.height * line.channels == row_len) by (nonlinear_arith)
                    requires
                        line.width == width,
                        line.height == 1,
                        line.channels == self@.channels,
                        row_len == width * self.channels,
                        self@.channels == self.channels,
                ;
                assert(target.offset(i, j, c) == start.len() + t) by (nonlinear_arith)
                    requires
                        target.offset(i, j, c) == (j * target.width + i) * target.channels + c,
                        j == row,
                        target.width == width,
                        target.channels == self@.channels,
                        start.len() == row * (width * self@.channels),
                        t == i * target.channels + c,
                ;
                assert(self@.offset(x + i, y + j, c) == first + t) by (nonlinear_arith)
                    requires
                        self@.offset(x + i, y + j, c) == ((y + j) * self@.width + (x + i)) * self@.channels + c,
                        first == ((y + row) * self@.width + x) * self@.channels,
                        j == row,
                        target.channels == self@.channels,
                        t == i * target.channels + c,
                ;
            }
        }
    }

    /// Lays an image over this one.
    pub fn paste(&mut self, left: usize, top: usize, patch: &Image)
        requires
            old(self).wf(),
            patch.wf(),
            patch@.channels == old(self)@.channels,
            left + patch@.width <= old(self)@.width,
            top + patch@.height <= old(self)@.height,
        ensures
            final(self).wf(),
            is_pasted(final(self)@, old(self)@, patch@, left as int, top as int),
    {
        let ghost before = self@;
        proof {
            self.lemma_size_fits();
            patch.lemma_size_fits();
        }
        if patch.data.len() == 0 {
            proof {
                assert forall|x: int, y: int, c: int| #[trigger] before.has(x, y, c) implies !patch@.has(
                    x - left,
                    y - top,
                    c,
                ) by {
                    if patch@.has(x - left, y - top, c) {
                        lemma_offset(patch@, x - left, y - top, c);
                    }
                }
            }
            return ;
        }
        proof {
            let _ = lemma_byte_has_place(patch@, 0);
            assert(self@.width * self@.height <= usize::MAX) by (nonlinear_arith)
                requires
                    self@.width * self@.height * self@.channels <= usize::MAX,
                    self@.channels >= 1,
                    self@.width * self@.height >= 0,
            ;
        }
        let mut i: usize = 0;
        while i < patch.data.len()
            invariant
                self.wf(),
                patch.wf(),
                before.wf(),
                self@.sized(before.width, before.height, before.channels),
                patch@.channels == before.channels,
                left + patch@.width <= before.width,
                top + patch@.height <= before.height,
                before.width <= usize::MAX,
                before.height <= usize::MAX,
                before.width * before.height <= usize::MAX,
                before.data.len() <= usize::MAX,
                i <= patch.data.len(),
                forall|x: int, y: int, c: int| #[trigger]
                    before.has(x, y, c) ==> self@.at(x, y, c) == if patch@.has(x - left, y - top, c) && patch@.offset(
                        x - left,
                        y - top,
                        c,
                    ) < i {
                        patch@.at(x - left, y - top, c)
                    } else {
                        before.at(x, y, c)
                    },
            decreases patch.data.len() - i,
        {
            let ghost place = lemma_byte_has_place(patch@, i as int);
            proof {
                let (w, ch) = (patch@.width, patch@.channels);
                let q = place.1 * w + place.0;
                lemma_offset(patch@, place.0, place.1, place.2);
                vstd::arithmetic::div_mod::lemma_fundamental_div_mod_converse(i as int, ch, q, place.2);
                vstd::arithmetic::div_mod::lemma_fundamental_div_mod_converse(q, w, place.1, place.0);
                assert(before.has(left + place.0, top + place.1, place.2));
                lemma_offset(before, left + place.0, top + place.1, place.2);
            }
            let pixel = i / patch.channels;
            let c = i % patch.channels;
            let x = pixel % patch.width;
            let y = pixel / patch.width;
            let ghost prior = self@;
            let at = ((top + y) * self.width + (left + x)) * self.channels + c;
            self.data.set(at, patch.data[i]);
            proof {
                assert forall|u: int, v: int, k: int| #[trigger] before.has(u, v, k) implies self@.at(u, v, k)
                    == if patch@.has(u - left, v - top, k) && patch@.offset(u - left, v - top, k) < i + 1 {
                    patch@.at(u - left, v - top, k)
                } else {
                    before.at(u, v, k)
                } by {
                    lemma_offset(before, u, v, k);
                    assert(prior.at(u, v, k) == prior.data[before.offset(u, v, k)]);
                    if before.offset(u, v, k) == at {
                        lemma_offset_is_injective(before, u, v, k, left + x, top + y, c as int);
                        assert(u - left == x && v - top == y);
                    } else if patch@.has(u - left, v - top, k) && patch@.offset(u - left, v - top, k) == i {
                        lemma_offset_is_injective(patch@, u - left, v - top, k, x as int, y as int, c as int);
                    }
                }
            }
            i += 1;
        }
        proof {
            assert forall|x: int, y: int, c: int| #[trigger] self@.has(x, y, c) implies self@.at(x, y, c) == if patch@.has(
                x - left,
                y - top,
                c,
            ) {
                patch@.at(x - left, y - top, c)
            } else {
                before.at(x, y, c)
            } by {
                assert(before.has(x, y, c));
                if patch@.has(x - left, y - top, c) {
                    lemma_offset(patch@, x - left, y - top, c);
                }
            }
        }
    }
}

/// Cropping a picture to its whole size changes nothing.
pub proof fn whole_crop_is_identity(part: Picture, whole: Picture)
    requires
        part.wf(),
        whole.wf(),
        part.sized(whole.width, whole.height, whole.channels),
        is_part_at(part, whole, 0, 0),
    ensures
        part == whole,
{
    picture_is_its_pixels(part, whole);
}

/// Cropping where an image was pasted gives that image back.
pub proof fn crop_undoes_paste(after: Picture, before: Picture, patch: Picture, part: Picture, left: int, top: int)
    requires
        patch.wf(),
        part.wf(),
        patch.channels == before.channels,
        0 <= left,
        0 <= top,
        left + patch.width <= before.width,
        top + patch.height <= before.height,
        is_pasted(after, before, patch, left, top),
        part.sized(patch.width, patch.height, patch.channels),
        is_part_at(part, after, left, top),
    ensures
        part == patch,
{
    assert forall|x: int, y: int, c: int| #[trigger] part.has(x, y, c) implies part.at(x, y, c) == patch.at(x, y, c) by {
        assert(after.has(left + x, top + y, c));
        assert(patch.has(x, y, c));
        assert((left + x) - left == x && (top + y) - top == y);
    }
    picture_is_its_pixels(part, patch);
}

/// The bytes of a picture stand row by row, in a row pixel by pixel, and in a pixel channel by
/// channel.
pub proof fn pixels_stand_row_by_row(p: Picture, x: int, y: int, c: int)
    requires
        p.wf(),
        p.has(x, y, c),
    ensures
        0 <= (y * p.width + x) * p.channels + c < p.data.len(),
        p.at(x, y, c) == p.data[(y * p.width + x) * p.channels + c],
{
    lemma_offset(p, x, y, c);
}

/// What is cut out of a picture shows it from the given column and row on: each byte is that
/// of the whole so many columns further right and so many rows further down.
pub proof fn cut_out_bytes_are_those_of_the_whole(
    part: Picture,
    whole: Picture,
    left: int,
    top: int,
    x: int,
    y: int,
    c: int,
)
    requires
        part.wf(),
        whole.wf(),
        is_part_at(part, whole, left, top),
        rectangle_inside(whole, left, top, part.width, part.height),
        part.has(x, y, c),
    ensures
        part.data[(y * part.width + x) * whole.channels + c] == whole.data[((top + y) * whole.width + (left + x))
            * whole.channels + c],
{
    assert(part.at(x, y, c) == whole.at(left + x, top + y, c));
}

/// Where a picture is pasted, its bytes are seen; everywhere else those from before are.
pub proof fn pasted_bytes_are_those_of_the_patch(
    after: Picture,
    before: Picture,
    patch: Picture,
    left: int,
    top: int,
    x: int,
    y: int,
    c: int,
)
    requires
        before.wf(),
        patch.channels == before.channels,
        is_pasted(after, before, patch, left, top),
        before.has(x, y, c),
    ensures
        after.sized(before.width, before.height, before.channels),
        after.data[(y * before.width + x) * before.channels + c] == if left <= x < left + patch.width && top <= y < top
            + patch.height {
            patch.data[((y - top) * patch.width + (x - left)) * patch.channels + c]
        } else {
            before.data[(y * before.width + x) * before.channels + c]
        },
{
    assert(after.has(x, y, c));
    assert(after.at(x, y, c) == after.data[(y * before.width + x) * before.channels + c]);
}

/// A rectangle can be cut out exactly if it has pixels and each of them is one of the image.
pub proof fn rectangles_of_pixels_can_be_cut_out(p: Picture, x: int, y: int, width: int, height: int)
    requires
        p.channels > 0,
    ensures
        rectangle_inside(p, x, y, width, height) <==> {
            &&& width > 0
            &&& height > 0
            &&& forall|i: int, j: int| x <= i < x + width && y <= j < y + height ==> #[trigger] p.has(i, j, 0)
        },
{
    if width > 0 && height > 0 && !rectangle_inside(p, x, y, width, height) {
        assert(!p.has(x, y, 0) || !p.has(x + width - 1, y + height - 1, 0));
    }
}

} // verus!
