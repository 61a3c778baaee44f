//! Cutting lines of text out of an image.

use vstd::prelude::*;

use crate::engines::ocr_region::TextRegion;
use crate::imaging::image::{lemma_offset, Image, Picture};
use crate::imaging::sample::{draw, is_sampled, shows};

verus! {

/// How many pixels of the image around it a line takes in at each side, where there is room.
pub const LINE_PADDING: i64 = 2;

/// Numbers of pixels at the four sides of a region: before its first column, after its last
/// one, above its first row and below its last one. Less than zero is inwards.
#[derive(Debug, Clone, Copy, PartialEq, Eq, Structural)]
pub struct Margins {
    pub before: i64,
    pub after: i64,
    pub above: i64,
    pub below: i64,
}

/// The length and the height of a region, and the room that the image leaves at its sides.
#[derive(Debug, Clone, Copy, PartialEq, Eq, Structural)]
pub struct LineMeasure {
    pub length: usize,
    pub height: usize,
    pub room: Margins,
}

/// A pixel of a line that is being cut out, the size of the line, and how far it reaches beyond
/// its region.
#[derive(Debug, Clone, Copy, PartialEq, Eq, Structural)]
pub struct LineSpot {
    pub x: usize,
    pub y: usize,
    pub width: usize,
    pub height: usize,
    pub padding: Margins,
}

/// The bytes of a pixel and of its neighbours to the right, below, and right below.
#[derive(Debug, Clone, Copy, PartialEq, Eq, Structural)]
pub struct Surroundings {
    pub here: u8,
    pub right: u8,
    pub below: u8,
    pub far: u8,
}

/// The size of a line of the given length or height.
pub open spec fn extent(n: int) -> int {
    if n < 8 {
        8
    } else {
        n
    }
}

/// How far a line reaches beyond a side of its region: by the padding, but not out of the image.
pub open spec fn reach(room: i64) -> i64 {
    if room < LINE_PADDING {
        room
    } else {
        LINE_PADDING
    }
}

impl Margins {
    /// How far a line reaches beyond its region, where the image leaves this room.
    pub open spec fn padding_spec(self) -> Margins {
        Margins {
            before: reach(self.before),
            after: reach(self.after),
            above: reach(self.above),
            below: reach(self.below),
        }
    }

    /// How far a line reaches beyond its region, where the image leaves this room.
    #[verifier::when_used_as_spec(padding_spec)]
    pub fn padding(self) -> (r: Margins)
        ensures
            r == self.padding_spec(),
    {
        Margins {
            before: reach_of(self.before),
            after: reach_of(self.after),
            above: reach_of(self.above),
            below: reach_of(self.below),
        }
    }
}

fn reach_of(room: i64) -> (r: i64)
    ensures
        r == reach(room),
{
    if room < LINE_PADDING {
        room
    } else {
        LINE_PADDING
    }
}

impl LineMeasure {
    /// The width of the line.
    pub open spec fn line_width(self) -> int {
        extent(self.length + self.room.padding().before + self.room.padding().after)
    }

    /// The height of the line.
    pub open spec fn line_height(self) -> int {
        extent(self.height + self.room.padding().above + self.room.padding().below)
    }

    /// Whether the bytes of the line can be counted.
    pub open spec fn can_be_drawn(self) -> bool {
        self.line_width() * self.line_height() * 3 <= usize::MAX
    }

    /// The width and the height of the line, if its bytes can be counted.
    pub fn line_size(&self) -> (r: Option<(usize, usize)>)
        ensures
            r is Some <==> self.can_be_drawn(),
            r matches Some((width, height)) ==> width == self.line_width() && height == self.line_height(),
    {
        let padding = self.room.padding();
        let width = extent_of(self.length, padding.before, padding.after);
        let height = extent_of(self.height, padding.above, padding.below);
        let limit = usize::MAX as u128;
        proof {
            let (w, h) = (width as int, height as int);
            assert(w * h * 3 >= w && w * h * 3 >= h) by (nonlinear_arith)
                requires
                    w >= 8,
                    h >= 8,
            ;
            assert(w <= u64::MAX && h <= u64::MAX ==> w * h <= u64::MAX * u64::MAX) by (nonlinear_arith)
                requires
                    w >= 8,
                    h >= 8,
            ;
        }
        if width > limit || height > limit || width * height > limit / 3 {
            return None;
        }
        Some((width as usize, height as usize))
    }
}

fn extent_of(n: usize, before: i64, after: i64) -> (r: u128)
    ensures
        r == extent(n + before + after),
        8 <= r <= 0x1_0000_0000_0000_0000_0000,
{
    let sum = n as i128 + before as i128 + after as i128;
    if sum < 8 {
        8
    } else {
        sum as u128
    }
}

/// A line is never larger than its region with the padding on both sides, is just as large
/// where there is room for it, and does not go beyond the room.
pub proof fn lines_are_padded_within_the_image(m: LineMeasure)
    ensures
        m.line_width() <= extent(m.length + 2 * LINE_PADDING),
        m.line_height() <= extent(m.height + 2 * LINE_PADDING),
        m.room.before >= LINE_PADDING && m.room.after >= LINE_PADDING ==> m.line_width() == extent(
            m.length + 2 * LINE_PADDING,
        ) && m.line_width() > m.length,
        m.room.above >= LINE_PADDING && m.room.below >= LINE_PADDING ==> m.line_height() == extent(
            m.height + 2 * LINE_PADDING,
        ) && m.line_height() > m.height,
        m.line_width() <= extent(m.length + m.room.before + m.room.after),
        m.line_height() <= extent(m.height + m.room.above + m.room.below),
{
}

/// The number after this one, unless there is none below `end`.
pub open spec fn next_below(n: int, end: int) -> int {
    if n + 1 < end {
        n + 1
    } else {
        end - 1
    }
}

/// The bytes around a pixel. Beyond the last column or row, these are repeated.
pub open spec fn surroundings(p: Picture, x: int, y: int, colour: int) -> Surroundings {
    let c = if p.channels >= 3 {
        colour
    } else {
        0
    };
    let (x2, y2) = (next_below(x, p.width), next_below(y, p.height));
    Surroundings { here: p.at(x, y, c), right: p.at(x2, y, c), below: p.at(x, y2, c), far: p.at(x2, y2, c) }
}

/// What cutting lines out of an image calls.
pub struct LineCalls<E, L, B> {
    /// The length and the height of a region, and the room at its sides.
    pub measure: E,
    /// Where a pixel of the line of a region stands in the image, if it does.
    pub locate: L,
    /// The colour of a pixel of the line of a region, between those around its place.
    pub blend: B,
}

impl<
    E: Fn(&TextRegion) -> LineMeasure,
    L: Fn(&TextRegion, LineSpot) -> Option<(usize, usize)>,
    B: Fn(&TextRegion, LineSpot, Surroundings) -> u8,
> LineCalls<E, L, B> {
    /// Whether everything can be called, the lines are not too large, and the pixels that
    /// stand in the image do so.
    pub open spec fn are_callable(self, image: Picture) -> bool {
        &&& forall|region: &TextRegion| call_requires(self.measure, (region,))
        &&& forall|region: &TextRegion, m: LineMeasure|
            #[trigger] call_ensures(self.measure, (region,), m) ==> m.can_be_drawn()
        &&& forall|region: &TextRegion, spot: LineSpot| call_requires(self.locate, (region, spot))
        &&& forall|region: &TextRegion, spot: LineSpot, x: usize, y: usize|
            call_ensures(self.locate, (region, spot), Some((x, y))) ==> x < image.width && y < image.height
        &&& forall|region: &TextRegion, spot: LineSpot, around: Surroundings|
            call_requires(self.blend, (region, spot, around))
    }
}

/// Whether the colours of a pixel of a line are what is blended from the surroundings of its
/// place in the image, black if it has none.
pub open spec fn is_line_colour<
    E: Fn(&TextRegion) -> LineMeasure,
    L: Fn(&TextRegion, LineSpot) -> Option<(usize, usize)>,
    B: Fn(&TextRegion, LineSpot, Surroundings) -> u8,
>(
    colours: spec_fn(int) -> u8,
    image: Picture,
    region: &TextRegion,
    spot: LineSpot,
    calls: &LineCalls<E, L, B>,
) -> bool {
    exists|place: Option<(usize, usize)>| #[trigger]
        call_ensures(calls.locate, (region, spot), place) && match place {
            Some((x, y)) => forall|c: int|
                0 <= c < 3 ==> call_ensures(
                    calls.blend,
                    (region, spot, surroundings(image, x as int, y as int, c)),
                    #[trigger] colours(c),
                ),
            None => forall|c: int| 0 <= c < 3 ==> #[trigger] colours(c) == 0,
        }
}

/// Whether a pixel of a line has its colours.
pub open spec fn is_line_pixel<
    E: Fn(&TextRegion) -> LineMeasure,
    L: Fn(&TextRegion, LineSpot) -> Option<(usize, usize)>,
    B: Fn(&TextRegion, LineSpot, Surroundings) -> u8,
>(
    line: Picture,
    x: int,
    y: int,
    image: Picture,
    region: &TextRegion,
    padding: Margins,
    calls: &LineCalls<E, L, B>,
) -> bool {
    is_line_colour(
        |c: int| line.at(x, y, c),
        image,
        region,
        (LineSpot {
            x: x as usize,
            y: y as usize,
            width: line.width as usize,
            height: line.height as usize,
            padding,
        }),
        calls,
    )
}

/// Whether a line is what is cut out of an image for a region of the given measure: the region
/// with its padding, pixel by pixel.
pub open spec fn is_line_of<
    E: Fn(&TextRegion) -> LineMeasure,
    L: Fn(&TextRegion, LineSpot) -> Option<(usize, usize)>,
    B: Fn(&TextRegion, LineSpot, Surroundings) -> u8,
>(line: Picture, image: Picture, region: &TextRegion, m: LineMeasure, calls: &LineCalls<E, L, B>) -> bool {
    &&& line.sized(m.line_width(), m.line_height(), 3)
    &&& forall|x: int, y: int|
        0 <= x < line.width && 0 <= y < line.height ==> #[trigger] is_line_pixel(
            line,
            x,
            y,
            image,
            region,
            m.room.padding(),
            calls,
        )
}

/// Whether a line is what is cut out of an image for a region.
pub open spec fn is_cut_line<
    E: Fn(&TextRegion) -> LineMeasure,
    L: Fn(&TextRegion, LineSpot) -> Option<(usize, usize)>,
    B: Fn(&TextRegion, LineSpot, Surroundings) -> u8,
>(line: Image, image: Picture, region: &TextRegion, calls: &LineCalls<E, L, B>) -> bool {
    &&& line.wf()
    &&& exists|m: LineMeasure| #[trigger]
        call_ensures(calls.measure, (region,), m) && is_line_of(line@, image, region, m, calls)
}

proof fn lemma_same_colours<
    E: Fn(&TextRegion) -> LineMeasure,
    L: Fn(&TextRegion, LineSpot) -> Option<(usize, usize)>,
    B: Fn(&TextRegion, LineSpot, Surroundings) -> u8,
>(
    a: spec_fn(int) -> u8,
    b: spec_fn(int) -> u8,
    image: Picture,
    region: &TextRegion,
    spot: LineSpot,
    calls: &LineCalls<E, L, B>,
)
    requires
        is_line_colour(a, image, region, spot, calls),
        forall|c: int| 0 <= c < 3 ==> #[trigger] b(c) == a(c),
    ensures
        is_line_colour(b, image, region, spot, calls),
{
}

/// The channel of an image from which a colour of a line is taken: a grey image has only
/// one.
fn line_channel(channels: usize, colour: usize) -> (r: usize)
    ensures
        r == if channels >= 3 {
            colour
        } else {
            0
        },
{
    if channels >= 3 {
        colour
    } else {
        0
    }
}

fn following(n: usize, end: usize) -> (r: usize)
    requires
        n < end,
    ensures
        r == next_below(n as int, end as int),
{
    if n + 1 < end {
        n + 1
    } else {
        end - 1
    }
}

fn byte_at(image: &Image, x: usize, y: usize, c: usize) -> (byte: u8)
    requires
        image.wf(),
        image@.has(x as int, y as int, c as int),
    ensures
        byte == image@.at(x as int, y as int, c as int),
{
    proof {
        image.lemma_size_fits();
        lemma_offset(image@, x as int, y as int, c as int);
        let (area, channels) = (image@.width * image@.height, image@.channels);
        assert(area <= usize::MAX) by (nonlinear_arith)
            requires
                area * channels <= usize::MAX,
                channels >= 1,
                area >= 0,
        ;
    }
    image.data()[(y * image.width() + x) * image.channels() + c]
}

fn look_around(image: &Image, x: usize, y: usize, colour: usize) -> (r: Surroundings)
    requires
        image.wf(),
        image@.channels >= 1,
        x < image@.width,
        y < image@.height,
        colour < 3,
    ensures
        r == surroundings(image@, x as int, y as int, colour as int),
{
    let c = line_channel(image.channels(), colour);
    let x2 = following(x, image.width());
    let y2 = following(y, image.height());
    Surroundings {
        here: byte_at(image, x, y, c),
        right: byte_at(image, x2, y, c),
        below: byte_at(image, x, y2, c),
        far: byte_at(image, x2, y2, c),
    }
}

fn line_pixel<
    E: Fn(&TextRegion) -> LineMeasure,
    L: Fn(&TextRegion, LineSpot) -> Option<(usize, usize)>,
    B: Fn(&TextRegion, LineSpot, Surroundings) -> u8,
>(image: &Image, region: &TextRegion, spot: LineSpot, calls: &LineCalls<E, L, B>) -> (r: Option<Vec<u8>>)
    requires
        image.wf(),
        image@.channels >= 1,
        calls.are_callable(image@),
    ensures
        r matches Some(bytes) ==> bytes.len() == 3,
        is_line_colour(
            |c: int|
                match r {
                    Some(bytes) => bytes@[c],
                    None => 0,
                },
            image@,
            region,
            spot,
            calls,
        ),
{
    let place = (calls.locate)(region, spot);
    assert(call_ensures(calls.locate, (region, spot), place));
    match place {
        None => None,
        Some((x, y)) => {
            let blue = (calls.blend)(region, spot, look_around(image, x, y, 0));
            let green = (calls.blend)(region, spot, look_around(image, x, y, 1));
            let red = (calls.blend)(region, spot, look_around(image, x, y, 2));
            let bytes: Vec<u8> = vec![blue, green, red];
            assert(bytes@[0] == blue && bytes@[1] == green && bytes@[2] == red);
            Some(bytes)
        },
    }
}

/// Cuts the line of a region out of an image, lying level and with a padding that stays in the
/// image.
pub fn crop_region<
    E: Fn(&TextRegion) -> LineMeasure,
    L: Fn(&TextRegion, LineSpot) -> Option<(usize, usize)>,
    B: Fn(&TextRegion, LineSpot, Surroundings) -> u8,
>(image: &Image, region: &TextRegion, calls: &LineCalls<E, L, B>) -> (line: Image)
    requires
        image.wf(),
        image@.channels >= 1,
        calls.are_callable(image@),
    ensures
        is_cut_line(line, image@, region, calls),
{
    let m = (calls.measure)(region);
    assert(call_ensures(calls.measure, (region,), m));
    let (width, height) = m.line_size().unwrap();
    let padding = m.room.padding();
    let sample = |x: usize, y: usize| -> (r: Option<Vec<u8>>)
        ensures
            r matches Some(bytes) ==> bytes.len() == 3,
            is_line_colour(
                |c: int|
                    match r {
                        Some(bytes) => bytes@[c],
                        None => 0,
                    },
                image@,
                region,
                (LineSpot { x, y, width, height, padding }),
                calls,
            ),
        { line_pixel(image, region, LineSpot { x, y, width, height, padding }, calls) };
    assert(width * height <= usize::MAX) by (nonlinear_arith)
        requires
            width * height * 3 <= usize::MAX,
    ;
    let line = draw(width, height, 3, sample);
    proof {
        assert forall|x: int, y: int| 0 <= x < line@.width && 0 <= y < line@.height implies #[trigger] is_line_pixel(
            line@,
            x,
            y,
            image@,
            region,
            padding,
            calls,
        ) by {
            assert(is_sampled(line@, x, y, sample));
            let r = choose|r: Option<Vec<u8>>| #[trigger]
                call_ensures(sample, (x as usize, y as usize), r) && shows(line@, x, y, r);
            let spot = LineSpot { x: x as usize, y: y as usize, width, height, padding };
            let sampled = |c: int|
                match r {
                    Some(bytes) => bytes@[c],
                    None => 0,
                };
            let colours = |c: int| line@.at(x, y, c);
            assert(is_line_colour(sampled, image@, region, spot, calls));
            lemma_same_colours(sampled, colours, image@, region, spot, calls);
        }
        assert(is_line_of(line@, image@, region, m, calls));
    }
    line
}

/// The surroundings of a pixel are its own byte, that of the pixel to the right, that of the
/// pixel below, and that of the pixel to the right below; where there is none to the right or
/// below, the last column or row stands for it. A grey image has one byte for all colours.
pub proof fn surroundings_are_the_next_pixels(p: Picture, x: int, y: int, colour: int)
    requires
        p.wf(),
        0 <= x < p.width,
        0 <= y < p.height,
        0 <= colour < 3,
    ensures
        ({
            let s = surroundings(p, x, y, colour);
            let c = if p.channels >= 3 {
                colour
            } else {
                0
            };
            let right = if x == p.width - 1 {
                x
            } else {
                x + 1
            };
            let below = if y == p.height - 1 {
                y
            } else {
                y + 1
            };
            &&& s.here == p.data[(y * p.width + x) * p.channels + c]
            &&& s.right == p.data[(y * p.width + right) * p.channels + c]
            &&& s.below == p.data[(below * p.width + x) * p.channels + c]
            &&& s.far == p.data[(below * p.width + right) * p.channels + c]
        }),
{
}

/// Each byte of a line is blended from the surroundings of the place that the image has for its
/// column and row; it is zero where there is no such place. The place is looked for with the
/// size of the line and with the padding that the room allows.
pub proof fn lines_show_the_image<
    E: Fn(&TextRegion) -> LineMeasure,
    L: Fn(&TextRegion, LineSpot) -> Option<(usize, usize)>,
    B: Fn(&TextRegion, LineSpot, Surroundings) -> u8,
>(
    line: Picture,
    image: Picture,
    region: &TextRegion,
    m: LineMeasure,
    calls: &LineCalls<E, L, B>,
    x: int,
    y: int,
    c: int,
) -> (place: Option<(usize, usize)>)
    requires
        line.wf(),
        image.wf(),
        is_line_of(line, image, region, m, calls),
        line.has(x, y, c),
    ensures
        ({
            let spot = LineSpot {
                x: x as usize,
                y: y as usize,
                width: line.width as usize,
                height: line.height as usize,
                padding: m.room.padding(),
            };
            &&& line.channels == 3
            &&& call_ensures(calls.locate, (region, spot), place)
            &&& match place {
                Some((u, v)) => call_ensures(
                    calls.blend,
                    (region, spot, surroundings(image, u as int, v as int, c)),
                    line.data[(y * line.width + x) * 3 + c],
                ),
                None => line.data[(y * line.width + x) * 3 + c] == 0,
            }
        }),
{
    let padding = m.room.padding();
    let spot = LineSpot {
        x: x as usize,
        y: y as usize,
        width: line.width as usize,
        height: line.height as usize,
        padding,
    };
    assert(is_line_pixel(line, x, y, image, region, padding, calls));
    let colours = |c: int| line.at(x, y, c);
    assert(is_line_colour(colours, image, region, spot, calls));
    let place = choose|place: Option<(usize, usize)>| #[trigger]
        call_ensures(calls.locate, (region, spot), place) && match place {
            Some((x, y)) => forall|c: int|
                0 <= c < 3 ==> call_ensures(
                    calls.blend,
                    (region, spot, surroundings(image, x as int, y as int, c)),
                    #[trigger] colours(c),
                ),
            None => forall|c: int| 0 <= c < 3 ==> #[trigger] colours(c) == 0,
        };
    assert(colours(c) == line.data[(y * line.width + x) * 3 + c]);
    place
}

/// A line is padded by two pixels at each side, or by what is left of the image at that very
/// side if that is less.
pub proof fn each_side_is_padded_by_its_own_room(room: Margins)
    ensures
        ({
            let padding = room.padding();
            &&& room.before >= 2 ==> padding.before == 2
            &&& room.before < 2 ==> padding.before == room.before
            &&& room.after >= 2 ==> padding.after == 2
            &&& room.after < 2 ==> padding.after == room.after
            &&& room.above >= 2 ==> padding.above == 2
            &&& room.above < 2 ==> padding.above == room.above
            &&& room.below >= 2 ==> padding.below == 2
            &&& room.below < 2 ==> padding.below == room.below
        }),
{
}

/// A line is as wide as its length with the padding before and behind it, and as high as its
/// height with the padding above and below it, but at least eight pixels each.
pub proof fn lines_have_room_for_their_padding(line: Picture, m: LineMeasure)
    requires
        line.sized(m.line_width(), m.line_height(), 3),
    ensures
        line.width >= 8,
        line.height >= 8,
        line.width == 8 || line.width == m.length + m.room.padding().before + m.room.padding().after,
        line.height == 8 || line.height == m.height + m.room.padding().above + m.room.padding().below,
        line.width >= m.length + m.room.padding().before + m.room.padding().after,
        line.height >= m.height + m.room.padding().above + m.room.padding().below,
{
}

} // verus!
