//! Regions and lines of text.

use vstd::prelude::*;

use crate::ieee::{Single, SINGLE_MAX, SINGLE_MIN};

verus! {

/// A region of text: four corners in the image, the first two along the text, and a
/// confidence.
#[derive(Debug, Clone, Copy)]
pub struct TextRegion {
    pub quad: [[Single; 2]; 4],
    pub score: Single,
}

/// A line of text and its confidence.
#[derive(Debug)]
pub struct TextLine {
    pub text: String,
    pub score: Single,
}

/// The least of one coordinate of the corners.
pub open spec fn least_corner(quad: [[Single; 2]; 4], axis: int) -> Single {
    Single { bits: SINGLE_MAX }.min(quad[0][axis]).min(quad[1][axis]).min(quad[2][axis]).min(quad[3][axis])
}

/// The greatest of one coordinate of the corners.
pub open spec fn greatest_corner(quad: [[Single; 2]; 4], axis: int) -> Single {
    Single { bits: SINGLE_MIN }.max(quad[0][axis]).max(quad[1][axis]).max(quad[2][axis]).max(quad[3][axis])
}

impl TextRegion {
    /// The bounding box: left, top, right and bottom.
    pub fn axis_aligned_bbox(&self) -> (r: (Single, Single, Single, Single))
        ensures
            r.0 == least_corner(self.quad, 0),
            r.1 == least_corner(self.quad, 1),
            r.2 == greatest_corner(self.quad, 0),
            r.3 == greatest_corner(self.quad, 1),
    {
        let mut x1 = Single { bits: SINGLE_MAX };
        let mut y1 = Single { bits: SINGLE_MAX };
        let mut x2 = Single { bits: SINGLE_MIN };
        let mut y2 = Single { bits: SINGLE_MIN };
        let ghost (low, high) = (x1, x2);
        let mut i: usize = 0;
        while i < 4
            invariant
                i <= 4,
                low.bits == SINGLE_MAX,
                high.bits == SINGLE_MIN,
                i == 0 ==> x1 == low && y1 == low && x2 == high && y2 == high,
                i == 1 ==> x1 == low.min(self.quad[0][0]) && y1 == low.min(self.quad[0][1]) && x2 == high.max(
                    self.quad[0][0],
                ) && y2 == high.max(self.quad[0][1]),
                i == 2 ==> x1 == low.min(self.quad[0][0]).min(self.quad[1][0]) && y1 == low.min(self.quad[0][1]).min(
                    self.quad[1][1],
                ) && x2 == high.max(self.quad[0][0]).max(self.quad[1][0]) && y2 == high.max(self.quad[0][1]).max(
                    self.quad[1][1],
                ),
                i == 3 ==> x1 == low.min(self.quad[0][0]).min(self.quad[1][0]).min(self.quad[2][0]) && y1 == low.min(
                    self.quad[0][1],
                ).min(self.quad[1][1]).min(self.quad[2][1]) && x2 == high.max(self.quad[0][0]).max(
                    self.quad[1][0],
                ).max(self.quad[2][0]) && y2 == high.max(self.quad[0][1]).max(self.quad[1][1]).max(self.quad[2][1]),
                i == 4 ==> x1 == least_corner(self.quad, 0) && y1 == least_corner(self.quad, 1) && x2
                    == greatest_corner(self.quad, 0) && y2 == greatest_corner(self.quad, 1),
            decreases 4 - i,
        {
            let p = self.quad[i];
            x1 = x1.min(p[0]);
            y1 = y1.min(p[1]);
            x2 = x2.max(p[0]);
            y2 = y2.max(p[1]);
            i += 1;
        }
        (x1, y1, x2, y2)
    }

    /// The region of an upright rectangle: top left, top right, bottom right, bottom left.
    pub fn from_bbox(x1: Single, y1: Single, x2: Single, y2: Single, score: Single) -> (r: TextRegion)
        ensures
            r.score == score,
            r.quad[0]@ == seq![x1, y1],
            r.quad[1]@ == seq![x2, y1],
            r.quad[2]@ == seq![x2, y2],
            r.quad[3]@ == seq![x1, y2],
    {
        let r = TextRegion { quad: [[x1, y1], [x2, y1], [x2, y2], [x1, y2]], score };
        assert(r.quad[0]@ =~= seq![x1, y1]);
        assert(r.quad[1]@ =~= seq![x2, y1]);
        assert(r.quad[2]@ =~= seq![x2, y2]);
        assert(r.quad[3]@ =~= seq![x1, y2]);
        r
    }
}

/// No corner lies outside the bounding box.
pub proof fn bounding_box_holds_corners(quad: [[Single; 2]; 4], axis: int, corner: int)
    requires
        0 <= corner < 4,
        forall|i: int| 0 <= i < 4 ==> !(#[trigger] quad[i])[axis].not_a_number(),
    ensures
        !least_corner(quad, axis).greater(quad[corner][axis]),
        !quad[corner][axis].greater(greatest_corner(quad, axis)),
{
    assert(!quad[0][axis].not_a_number());
    assert(!quad[1][axis].not_a_number());
    assert(!quad[2][axis].not_a_number());
    assert(!quad[3][axis].not_a_number());
    assert(corner == 0 || corner == 1 || corner == 2 || corner == 3);
}

/// Whether a value is a number and not infinite.
pub open spec fn is_finite(v: Single) -> bool {
    -0x7f7f_ffff <= v.key() <= 0x7f7f_ffff
}

/// The bounding box of an upright rectangle is that rectangle.
pub proof fn rectangle_is_its_bounding_box(quad: [[Single; 2]; 4], x1: Single, y1: Single, x2: Single, y2: Single)
    requires
        quad[0]@ == seq![x1, y1],
        quad[1]@ == seq![x2, y1],
        quad[2]@ == seq![x2, y2],
        quad[3]@ == seq![x1, y2],
        is_finite(x1),
        is_finite(y1),
        is_finite(x2),
        is_finite(y2),
        !x1.greater(x2),
        !y1.greater(y2),
    ensures
        least_corner(quad, 0).key() == x1.key(),
        least_corner(quad, 1).key() == y1.key(),
        greatest_corner(quad, 0).key() == x2.key(),
        greatest_corner(quad, 1).key() == y2.key(),
{
    assert(quad[0][0] == x1 && quad[0][1] == y1);
    assert(quad[1][0] == x2 && quad[1][1] == y1);
    assert(quad[2][0] == x2 && quad[2][1] == y2);
    assert(quad[3][0] == x1 && quad[3][1] == y2);
}

/// Each side of the bounding box goes through a corner, unless a coordinate of all corners is
/// infinite or no number.
pub proof fn bounding_box_touches_corners(quad: [[Single; 2]; 4], axis: int) -> (r: (int, int))
    requires
        forall|i: int| 0 <= i < 4 ==> is_finite((#[trigger] quad[i])[axis]),
    ensures
        0 <= r.0 < 4,
        0 <= r.1 < 4,
        least_corner(quad, axis).key() == quad[r.0][axis].key(),
        greatest_corner(quad, axis).key() == quad[r.1][axis].key(),
{
    assert(is_finite(quad[0][axis]));
    assert(is_finite(quad[1][axis]));
    assert(is_finite(quad[2][axis]));
    assert(is_finite(quad[3][axis]));
    let (a, b, c, d) = (quad[0][axis].key(), quad[1][axis].key(), quad[2][axis].key(), quad[3][axis].key());
    let (low, high) = (least_corner(quad, axis).key(), greatest_corner(quad, axis).key());
    (
        if low == a { 0 } else if low == b { 1 } else if low == c { 2 } else { 3 },
        if high == a { 0 } else if high == b { 1 } else if high == c { 2 } else { 3 },
    )
}

} // verus!
