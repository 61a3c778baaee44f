//! Drawing images pixel by pixel.

use vstd::prelude::*;

use crate::imaging::image::{lemma_offset, Image, Picture};

verus! {

/// Whether a pixel of a picture is what was sampled for it, black if that was nothing.
pub open spec fn shows(p: Picture, x: int, y: int, sampled: Option<Vec<u8>>) -> bool {
    forall|c: int| 0 <= c < p.channels ==> #[trigger] p.at(x, y, c) == match sampled {
        Some(bytes) => bytes@[c],
        None => 0,
    }
}

/// Whether a pixel of a picture is one that `sample` may give for it.
pub open spec fn is_sampled<S: Fn(usize, usize) -> Option<Vec<u8>>>(p: Picture, x: int, y: int, sample: S) -> bool {
    exists|sampled: Option<Vec<u8>>| #[trigger]
        call_ensures(sample, (x as usize, y as usize), sampled) && shows(p, x, y, sampled)
}

/// Whether a position comes before another, row by row.
pub open spec fn is_earlier(x: int, y: int, x2: int, y2: int) -> bool {
    y < y2 || y == y2 && x < x2
}

/// Draws an image, asking `sample` for each pixel. A pixel for which it gives nothing stays
/// black.
pub fn draw<S: Fn(usize, usize) -> Option<Vec<u8>>>(width: usize, height: usize, channels: usize, sample: S) -> (image: Image)
    requires
        width * height <= usize::MAX,
        width * height * channels <= usize::MAX,
        forall|x: usize, y: usize| x < width && y < height ==> call_requires(sample, (x, y)),
        forall|x: usize, y: usize, bytes: Vec<u8>|
            call_ensures(sample, (x, y), Some(bytes)) ==> bytes.len() == channels,
    ensures
        image.wf(),
        image@.sized(width as int, height as int, channels as int),
        forall|x: int, y: int| 0 <= x < width && 0 <= y < height ==> #[trigger] is_sampled(image@, x, y, sample),
{
    let mut image = Image::filled(width, height, channels, 0);
    proof {
        assert forall|i: int, j: int, c: int| #[trigger] image@.has(i, j, c) implies image@.at(i, j, c) == 0 by {
            lemma_offset(image@, i, j, c);
        }
    }
    let mut y: usize = 0;
    while y < height
        invariant
            y <= height,
            image.wf(),
            image@.sized(width as int, height as int, channels as int),
            forall|x: usize, y: usize| x < width && y < height ==> call_requires(sample, (x, y)),
            forall|x: usize, y: usize, bytes: Vec<u8>|
                call_ensures(sample, (x, y), Some(bytes)) ==> bytes.len() == channels,
            forall|i: int, j: int| 0 <= i < width && 0 <= j < y ==> #[trigger] is_sampled(image@, i, j, sample),
            forall|i: int, j: int, c: int| #[trigger]
                image@.has(i, j, c) && j >= y ==> image@.at(i, j, c) == 0,
        decreases height - y,
    {
        let mut x: usize = 0;
        while x < width
            invariant
                y < height,
                x <= width,
                image.wf(),
                image@.sized(width as int, height as int, channels as int),
                forall|x: usize, y: usize| x < width && y < height ==> call_requires(sample, (x, y)),
                forall|x: usize, y: usize, bytes: Vec<u8>|
                    call_ensures(sample, (x, y), Some(bytes)) ==> bytes.len() == channels,
                forall|i: int, j: int|
                    0 <= i < width && 0 <= j < height && is_earlier(i, j, x as int, y as int) ==> #[trigger] is_sampled(
                        image@,
                        i,
                        j,
                        sample,
                    ),
                forall|i: int, j: int, c: int| #[trigger]
                    image@.has(i, j, c) && !is_earlier(i, j, x as int, y as int) ==> image@.at(i, j, c) == 0,
            decreases width - x,
        {
            let ghost before = image@;
            let sampled = sample(x, y);
            let ghost answer = sampled;
            assert(call_ensures(sample, (x, y), answer));
            if let Some(bytes) = sampled {
                image.set_pixel(x, y, bytes.as_slice());
            }
            proof {
                assert forall|i: int, j: int|
                    0 <= i < width && 0 <= j < height && is_earlier(i, j, x + 1, y as int) implies #[trigger] is_sampled(
                    image@,
                    i,
                    j,
                    sample,
                ) by {
                    if i == x && j == y {
                        assert forall|c: int| 0 <= c < channels implies #[trigger] image@.at(i, j, c) == match answer {
                            Some(bytes) => bytes@[c],
                            None => 0,
                        } by {
                            assert(image@.has(i, j, c));
                            assert(before.has(i, j, c));
                        }
                        assert(shows(image@, i, j, answer));
                    } else {
                        assert(is_sampled(before, i, j, sample));
                        let old_answer = choose|sampled: Option<Vec<u8>>| #[trigger]
                            call_ensures(sample, (i as usize, j as usize), sampled) && shows(before, i, j, sampled);
                        assert forall|c: int| 0 <= c < channels implies #[trigger] image@.at(i, j, c)
                            == match old_answer {
                            Some(bytes) => bytes@[c],
                            None => 0,
                        } by {
                            assert(image@.has(i, j, c));
                            assert(before.at(i, j, c) == image@.at(i, j, c));
                        }
                        assert(shows(image@, i, j, old_answer));
                    }
                }
                assert forall|i: int, j: int, c: int| #[trigger]
                    image@.has(i, j, c) && !is_earlier(i, j, x + 1, y as int) implies image@.at(i, j, c) == 0 by {
                    assert(before.has(i, j, c));
                    assert(before.at(i, j, c) == 0);
                }
            }
            x += 1;
        }
        y += 1;
    }
    image
}

/// A drawn pixel has, byte by byte, what was sampled for its own column and row; it is black if that
/// was nothing.
pub proof fn drawn_pixels_are_those_of_their_place<S: Fn(usize, usize) -> Option<Vec<u8>>>(
    p: Picture,
    x: int,
    y: int,
    c: int,
    sample: S,
) -> (sampled: Option<Vec<u8>>)
    requires
        is_sampled(p, x, y, sample),
        0 <= c < p.channels,
    ensures
        call_ensures(sample, (x as usize, y as usize), sampled),
        p.data[(y * p.width + x) * p.channels + c] == match sampled {
            Some(bytes) => bytes@[c],
            None => 0,
        },
{
    let sampled = choose|sampled: Option<Vec<u8>>| #[trigger]
        call_ensures(sample, (x as usize, y as usize), sampled) && shows(p, x, y, sampled);
    assert(p.at(x, y, c) == p.data[(y * p.width + x) * p.channels + c]);
    sampled
}

} // verus!
