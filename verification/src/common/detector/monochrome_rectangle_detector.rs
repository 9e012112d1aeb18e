//! A detector of a rectangular region of black and white, mostly black,
//! inside a mostly white region of an image.

use crate::common::bit_matrix::BitMatrix;
use crate::exceptions::Exceptions;
use crate::result_point::RXingResultPoint;
use vstd::prelude::*;

verus! {

/// The greatest number of modules that a barcode is taken to have along one
/// side.
pub const MAX_MODULES: i64 = 32;

/// The pixel in column `x` of row `y`; white outside the image.
pub open spec fn pixel_of(m: Seq<Seq<bool>>, x: int, y: int) -> bool {
    0 <= y < m.len() && 0 <= x < m[y].len() && m[y][x]
}

/// Pixel `p` of a line of the image: of row `fixed` where the line is
/// horizontal, of column `fixed` where it is vertical.
pub open spec fn line_pixel(m: Seq<Seq<bool>>, fixed: int, p: int, horizontal: bool) -> bool {
    if horizontal {
        pixel_of(m, p, fixed)
    } else {
        pixel_of(m, fixed, p)
    }
}

/// The first black pixel of a line at or below `from`, not below `min_dim`;
/// `min_dim - 1` where there is none.
pub open spec fn black_below(m: Seq<Seq<bool>>, fixed: int, horizontal: bool, from: int, min_dim: int) -> int
    decreases from - min_dim + 1,
{
    if from < min_dim {
        min_dim - 1
    } else if line_pixel(m, fixed, from, horizontal) {
        from
    } else {
        black_below(m, fixed, horizontal, from - 1, min_dim)
    }
}

/// The first black pixel of a line at or above `from`, below `max_dim`;
/// `max_dim` where there is none.
pub open spec fn black_above(m: Seq<Seq<bool>>, fixed: int, horizontal: bool, from: int, max_dim: int) -> int
    decreases max_dim - from,
{
    if from >= max_dim {
        max_dim
    } else if line_pixel(m, fixed, from, horizontal) {
        from
    } else {
        black_above(m, fixed, horizontal, from + 1, max_dim)
    }
}

/// The pixel that `black_below` finds does not lie above `from`, nor below
/// `min_dim - 1`.
pub proof fn lemma_black_below(m: Seq<Seq<bool>>, fixed: int, horizontal: bool, from: int, min_dim: int)
    requires
        from >= min_dim - 1,
    ensures
        min_dim - 1 <= black_below(m, fixed, horizontal, from, min_dim) <= from,
    decreases from - min_dim + 1,
{
    if from >= min_dim && !line_pixel(m, fixed, from, horizontal) {
        lemma_black_below(m, fixed, horizontal, from - 1, min_dim);
    }
}

/// The pixel that `black_above` finds does not lie below `from`, nor above
/// `max_dim`.
pub proof fn lemma_black_above(m: Seq<Seq<bool>>, fixed: int, horizontal: bool, from: int, max_dim: int)
    requires
        from <= max_dim,
    ensures
        from <= black_above(m, fixed, horizontal, from, max_dim) <= max_dim,
    decreases max_dim - from,
{
    if from < max_dim && !line_pixel(m, fixed, from, horizontal) {
        lemma_black_above(m, fixed, horizontal, from + 1, max_dim);
    }
}

/// Where a walk down a line from `start` stops: at the white pixel that
/// starts a run of white that is longer than `max_white` or reaches below
/// `min_dim`, or at `min_dim - 1` where the line is passed without one.
pub open spec fn scan_down(
    m: Seq<Seq<bool>>,
    fixed: int,
    horizontal: bool,
    start: int,
    min_dim: int,
    max_white: int,
) -> int
    decreases start - min_dim + 1,
{
    if start < min_dim {
        start
    } else if line_pixel(m, fixed, start, horizontal) {
        scan_down(m, fixed, horizontal, start - 1, min_dim, max_white)
    } else {
        let next = black_below(m, fixed, horizontal, start - 1, min_dim);
        if next < min_dim || start - next > max_white {
            start
        } else {
            proof {
                lemma_black_below(m, fixed, horizontal, start - 1, min_dim);
            }
            scan_down(m, fixed, horizontal, next, min_dim, max_white)
        }
    }
}

/// Where a walk up a line from `end` stops: at the white pixel that starts
/// a run of white that is longer than `max_white` or reaches `max_dim`, or
/// at `max_dim` where the line is passed without one.
pub open spec fn scan_up(
    m: Seq<Seq<bool>>,
    fixed: int,
    horizontal: bool,
    end: int,
    max_dim: int,
    max_white: int,
) -> int
    decreases max_dim - end,
{
    if end >= max_dim {
        end
    } else if line_pixel(m, fixed, end, horizontal) {
        scan_up(m, fixed, horizontal, end + 1, max_dim, max_white)
    } else {
        let next = black_above(m, fixed, horizontal, end + 1, max_dim);
        if next >= max_dim || next - end > max_white {
            end
        } else {
            proof {
                lemma_black_above(m, fixed, horizontal, end + 1, max_dim);
            }
            scan_up(m, fixed, horizontal, next, max_dim, max_white)
        }
    }
}

/// The middle of two numbers, rounded towards zero.
pub open spec fn middle(a: int, b: int) -> int {
    if a + b >= 0 {
        (a + b) / 2
    } else {
        -((-(a + b)) / 2)
    }
}

/// The start and the end of the region of a line that could be part of a
/// barcode: what a walk from the middle of `min_dim` and `max_dim` passes
/// in both directions before a run of white that is longer than
/// `max_white` or reaches the limit. There is none where the region is not
/// more than one pixel.
pub open spec fn black_white_range(
    m: Seq<Seq<bool>>,
    fixed: int,
    max_white: int,
    min_dim: int,
    max_dim: int,
    horizontal: bool,
) -> Option<(int, int)> {
    let center = middle(min_dim, max_dim);
    let start = scan_down(m, fixed, horizontal, center, min_dim, max_white) + 1;
    let end = scan_up(m, fixed, horizontal, center, max_dim, max_white) - 1;
    if end > start {
        Some((start, end))
    } else {
        None
    }
}

/// The limits of a search for a corner: the columns from `left` to `right`
/// and the rows from `top` to `bottom`, `right` and `bottom` excluded.
pub struct Limits {
    pub left: i64,
    pub right: i64,
    pub top: i64,
    pub bottom: i64,
}

/// The corner that is reported once the line behind the last line with a
/// region is met: an end of that region, at the line's place. Where the
/// region straddles the centre, the end is chosen by the direction of the
/// walk; otherwise it is the end nearer to the centre's side.
pub open spec fn corner_of(
    last: (int, int),
    x: int,
    y: int,
    center_x: int,
    delta_x: int,
    center_y: int,
    delta_y: int,
) -> (int, int) {
    if delta_x == 0 {
        let last_y = y - delta_y;
        if last.0 < center_x {
            if last.1 > center_x {
                (if delta_y > 0 {
                    last.0
                } else {
                    last.1
                }, last_y)
            } else {
                (last.0, last_y)
            }
        } else {
            (last.1, last_y)
        }
    } else {
        let last_x = x - delta_x;
        if last.0 < center_y {
            if last.1 > center_y {
                (last_x, if delta_x < 0 {
                    last.0
                } else {
                    last.1
                })
            } else {
                (last_x, last.0)
            }
        } else {
            (last_x, last.1)
        }
    }
}

/// How many steps of `(delta_x, delta_y)` a walk from `(x, y)` can make at
/// most before it leaves the limits; 0 where it has left them.
pub open spec fn steps_left(x: int, y: int, delta_x: int, delta_y: int, limits: Limits) -> int {
    if !(y < limits.bottom && y >= limits.top && x < limits.right && x >= limits.left) {
        0
    } else if delta_x > 0 {
        limits.right - x
    } else if delta_x < 0 {
        x - limits.left + 1
    } else if delta_y > 0 {
        limits.bottom - y
    } else {
        y - limits.top + 1
    }
}

/// The corner that a walk from `(x, y)` in steps of `(delta_x, delta_y)`
/// finds: the walk goes on as long as the line across it has a region, and
/// the corner is taken from the last region once a line has none. There is
/// no corner where the first line has no region or where the walk leaves
/// the limits.
#[verifier::opaque]
pub open spec fn corner_from(
    m: Seq<Seq<bool>>,
    x: int,
    y: int,
    last: Option<(int, int)>,
    center_x: int,
    delta_x: int,
    center_y: int,
    delta_y: int,
    limits: Limits,
    max_white: int,
) -> Option<(int, int)>
    decreases steps_left(x, y, delta_x, delta_y, limits),
{
    if !(y < limits.bottom && y >= limits.top && x < limits.right && x >= limits.left) || (delta_x
        == 0 && delta_y == 0) {
        None
    } else {
        let range = if delta_x == 0 {
            black_white_range(m, y, max_white, limits.left as int, limits.right as int, true)
        } else {
            black_white_range(m, x, max_white, limits.top as int, limits.bottom as int, false)
        };
        match range {
            None => match last {
                Some(found) => Some(corner_of(found, x, y, center_x, delta_x, center_y, delta_y)),
                None => None,
            },
            Some(found) => corner_from(
                m,
                x + delta_x,
                y + delta_y,
                Some(found),
                center_x,
                delta_x,
                center_y,
                delta_y,
                limits,
                max_white,
            ),
        }
    }
}

/// One pixel per step, or more for an image of more than 256 pixels.
pub open spec fn step_of(size: int) -> int {
    if size / (MAX_MODULES * 8) > 1 {
        size / (MAX_MODULES * 8)
    } else {
        1
    }
}

/// The corner that a walk from the centre of the image finds, in steps of
/// `(delta_x, delta_y)` and within `limits`.
pub open spec fn corner_from_center(
    m: Seq<Seq<bool>>,
    delta_x: int,
    delta_y: int,
    limits: Limits,
    max_white: int,
) -> Option<(int, int)> {
    let x = (m[0].len() / 2) as int;
    let y = (m.len() / 2) as int;
    corner_from(m, x, y, None, x, delta_x, y, delta_y, limits, max_white)
}

/// The four corners of the region: the topmost, the leftmost, the rightmost
/// and the bottommost. Each is found by a walk from the centre of the
/// image, within the limits that the corners before it give; the topmost is
/// found again at the end, within the limits of all.
pub open spec fn detected(m: Seq<Seq<bool>>) -> Option<Seq<(int, int)>> {
    let all = Limits { left: 0, right: m[0].len() as i64, top: 0, bottom: m.len() as i64 };
    match corner_from_center(m, 0, -step_of(m.len() as int), all, (m[0].len() / 2 / 2) as int) {
        None => None,
        Some(a) => detected_below(m, Limits { top: (a.1 - 1) as i64, ..all }),
    }
}

/// The corners, once the topmost gave the upper limit.
pub open spec fn detected_below(m: Seq<Seq<bool>>, limits: Limits) -> Option<Seq<(int, int)>> {
    match corner_from_center(m, -step_of(m[0].len() as int), 0, limits, (m.len() / 2 / 2) as int) {
        None => None,
        Some(b) => detected_right_of(m, b, Limits { left: (b.0 - 1) as i64, ..limits }),
    }
}

/// The corners, once the leftmost `b` gave the left limit.
pub open spec fn detected_right_of(m: Seq<Seq<bool>>, b: (int, int), limits: Limits) -> Option<
    Seq<(int, int)>,
> {
    match corner_from_center(m, step_of(m[0].len() as int), 0, limits, (m.len() / 2 / 2) as int) {
        None => None,
        Some(c) => detected_left_of(m, b, c, Limits { right: (c.0 + 1) as i64, ..limits }),
    }
}

/// The corners, once the rightmost `c` gave the right limit.
pub open spec fn detected_left_of(
    m: Seq<Seq<bool>>,
    b: (int, int),
    c: (int, int),
    limits: Limits,
) -> Option<Seq<(int, int)>> {
    match corner_from_center(m, 0, step_of(m.len() as int), limits, (m[0].len() / 2 / 2) as int) {
        None => None,
        Some(d) => {
            // the topmost corner again, with better limits
            let above = Limits { bottom: (d.1 + 1) as i64, ..limits };
            match corner_from_center(m, 0, -step_of(m.len() as int), above, (m[0].len() / 2 / 4) as int) {
                None => None,
                Some(a) => Some(seq![a, b, c, d]),
            }
        },
    }
}

/// A detector of a rectangular region of black and white, mostly black,
/// inside a mostly white region of an image.
pub struct MonochromeRectangleDetector {
    image: BitMatrix,
}

impl MonochromeRectangleDetector {
    /// The image that the detector looks at.
    pub closed spec fn spec_image(&self) -> Seq<Seq<bool>> {
        self.image@
    }

    /// The image is a matrix.
    pub closed spec fn wf(&self) -> bool {
        self.image.wf()
    }

    /// A detector for a copy of `image`.
    pub fn new(image: &BitMatrix) -> (r: Self)
        requires
            image.wf(),
        ensures
            r.wf(),
            r.spec_image() == image@,
    {
        Self { image: image.clone() }
    }

    /// The pixel in column `x` of row `y`; white outside the image.
    fn pixel(&self, x: i64, y: i64) -> (r: bool)
        requires
            self.wf(),
        ensures
            r == pixel_of(self.spec_image(), x as int, y as int),
    {
        proof {
            assert(self.image@[0].len() == self.image.spec_width());
        }
        if x < 0 || y < 0 || x >= self.image.getWidth() as i64 || y >= self.image.getHeight()
            as i64 {
            return false;
        }
        assert(self.image@[y as int].len() == self.image.spec_width());
        self.image.get(x as u32, y as u32)
    }

    /// Pixel `p` of the line `fixed`.
    fn linePixel(&self, fixed: i64, p: i64, horizontal: bool) -> (r: bool)
        requires
            self.wf(),
        ensures
            r == line_pixel(self.spec_image(), fixed as int, p as int, horizontal),
    {
        if horizontal {
            self.pixel(p, fixed)
        } else {
            self.pixel(fixed, p)
        }
    }

    /// Finds the four corners of the region: the topmost, the leftmost, the
    /// rightmost and the bottommost, in this order. Fails where a walk from
    /// the centre of the image finds no corner.
    pub fn detect(&self) -> (r: Result<Vec<RXingResultPoint>, Exceptions>)
        requires
            self.wf(),
        ensures
            r is Ok <==> detected(self.spec_image()) is Some,
            r is Ok ==> r->Ok_0@.len() == 4 && forall|i: int|
                0 <= i < 4 ==> (#[trigger] r->Ok_0@[i]).x == detected(self.spec_image())->Some_0[i].0
                    && r->Ok_0@[i].y == detected(self.spec_image())->Some_0[i].1,
            r is Err ==> r->Err_0 == Exceptions::NotFoundException,
    {
        proof {
            assert(self.image@[0].len() == self.image.spec_width());
        }
        let height: i64 = self.image.getHeight() as i64;
        let width: i64 = self.image.getWidth() as i64;
        let halfHeight: i64 = height / 2;
        let halfWidth: i64 = width / 2;
        let deltaY: i64 = if height / (MAX_MODULES * 8) > 1 {
            height / (MAX_MODULES * 8)
        } else {
            1
        };
        let deltaX: i64 = if width / (MAX_MODULES * 8) > 1 {
            width / (MAX_MODULES * 8)
        } else {
            1
        };
        let mut limits = Limits { left: 0, right: width, top: 0, bottom: height };
        let pointA = match self.findCornerFromCenter(
            halfWidth,
            0,
            halfHeight,
            -deltaY,
            &limits,
            halfWidth / 2,
        ) {
            Ok(p) => p,
            Err(e) => {
                return Err(e);
            },
        };
        limits.top = pointA.getY() - 1;
        let pointB = match self.findCornerFromCenter(
            halfWidth,
            -deltaX,
            halfHeight,
            0,
            &limits,
            halfHeight / 2,
        ) {
            Ok(p) => p,
            Err(e) => {
                return Err(e);
            },
        };
        limits.left = pointB.getX() - 1;
        let pointC = match self.findCornerFromCenter(
            halfWidth,
            deltaX,
            halfHeight,
            0,
            &limits,
            halfHeight / 2,
        ) {
            Ok(p) => p,
            Err(e) => {
                return Err(e);
            },
        };
        limits.right = pointC.getX() + 1;
        let pointD = match self.findCornerFromCenter(
            halfWidth,
            0,
            halfHeight,
            deltaY,
            &limits,
            halfWidth / 2,
        ) {
            Ok(p) => p,
            Err(e) => {
                return Err(e);
            },
        };
        limits.bottom = pointD.getY() + 1;
        // Find the topmost corner again with better limits: it might have
        // been off at first.
        let pointA2 = match self.findCornerFromCenter(
            halfWidth,
            0,
            halfHeight,
            -deltaY,
            &limits,
            halfWidth / 4,
        ) {
            Ok(p) => p,
            Err(e) => {
                return Err(e);
            },
        };
        let r = vec![pointA2, pointB, pointC, pointD];
        Ok(r)
    }

    /// Looks for a corner of the barcode by a walk from a centre, which
    /// should lie within the barcode, up, down, left or right: in steps of
    /// `deltaY` rows or of `deltaX` columns, of which one is 0. Fails where
    /// the walk finds no corner.
    fn findCornerFromCenter(
        &self,
        centerX: i64,
        deltaX: i64,
        centerY: i64,
        deltaY: i64,
        limits: &Limits,
        maxWhiteRun: i64,
    ) -> (r: Result<RXingResultPoint, Exceptions>)
        requires
            self.wf(),
            -0x1_0000_0010 <= limits.left <= 0x1_0000_0010,
            -0x1_0000_0010 <= limits.right <= 0x1_0000_0010,
            -0x1_0000_0010 <= limits.top <= 0x1_0000_0010,
            -0x1_0000_0010 <= limits.bottom <= 0x1_0000_0010,
            -0x1_0000_0010 <= deltaX <= 0x1_0000_0010,
            -0x1_0000_0010 <= deltaY <= 0x1_0000_0010,
            0 <= centerX <= 0x1_0000_0010,
            0 <= centerY <= 0x1_0000_0010,
        ensures
            r is Ok <==> corner_from(
                self.spec_image(),
                centerX as int,
                centerY as int,
                None,
                centerX as int,
                deltaX as int,
                centerY as int,
                deltaY as int,
                *limits,
                maxWhiteRun as int,
            ) is Some,
            r is Ok ==> (r->Ok_0.x as int, r->Ok_0.y as int) == corner_from(
                self.spec_image(),
                centerX as int,
                centerY as int,
                None,
                centerX as int,
                deltaX as int,
                centerY as int,
                deltaY as int,
                *limits,
                maxWhiteRun as int,
            )->Some_0,
            r is Ok ==> limits.left - 1 <= r->Ok_0.x <= limits.right + 1 && limits.top - 1
                <= r->Ok_0.y <= limits.bottom + 1,
            r is Err ==> r->Err_0 == Exceptions::NotFoundException,
    {
        proof {
            reveal_with_fuel(corner_from, 2);
        }
        if deltaX == 0 && deltaY == 0 {
            return Err(Exceptions::NotFoundException);
        }
        let ghost target = corner_from(
            self.spec_image(),
            centerX as int,
            centerY as int,
            None,
            centerX as int,
            deltaX as int,
            centerY as int,
            deltaY as int,
            *limits,
            maxWhiteRun as int,
        );
        let mut lastRange: Option<(i64, i64)> = None;
        let mut y: i64 = centerY;
        let mut x: i64 = centerX;
        while y < limits.bottom && y >= limits.top && x < limits.right && x >= limits.left
            invariant
                self.wf(),
                deltaX != 0 || deltaY != 0,
                -0x1_0000_0010 <= limits.left <= 0x1_0000_0010,
                -0x1_0000_0010 <= limits.right <= 0x1_0000_0010,
                -0x1_0000_0010 <= limits.top <= 0x1_0000_0010,
                -0x1_0000_0010 <= limits.bottom <= 0x1_0000_0010,
                -0x1_0000_0010 <= deltaX <= 0x1_0000_0010,
                -0x1_0000_0010 <= deltaY <= 0x1_0000_0010,
                -0x2_0000_0020 <= x <= 0x2_0000_0020,
                -0x2_0000_0020 <= y <= 0x2_0000_0020,
                target == corner_from(
                    self.spec_image(),
                    centerX as int,
                    centerY as int,
                    None,
                    centerX as int,
                    deltaX as int,
                    centerY as int,
                    deltaY as int,
                    *limits,
                    maxWhiteRun as int,
                ),
                lastRange is Some ==> limits.left <= x - deltaX < limits.right && limits.top <= y
                    - deltaY < limits.bottom,
                lastRange is Some ==> lastRange->Some_0.0 < lastRange->Some_0.1,
                lastRange is Some && deltaX == 0 ==> limits.left <= lastRange->Some_0.0
                    && lastRange->Some_0.1 < limits.right,
                lastRange is Some && deltaX != 0 ==> limits.top <= lastRange->Some_0.0
                    && lastRange->Some_0.1 < limits.bottom,
                target == corner_from(
                    self.spec_image(),
                    x as int,
                    y as int,
                    match lastRange {
                        Some(found) => Some((found.0 as int, found.1 as int)),
                        None => None,
                    },
                    centerX as int,
                    deltaX as int,
                    centerY as int,
                    deltaY as int,
                    *limits,
                    maxWhiteRun as int,
                ),
            decreases steps_left(x as int, y as int, deltaX as int, deltaY as int, *limits),
        {
            proof {
                reveal_with_fuel(corner_from, 2);
            }
            let range: Option<(i64, i64)> = if deltaX == 0 {
                // horizontal slices, up and down
                self.blackWhiteRange(y, maxWhiteRun, limits.left, limits.right, true)
            } else {
                // vertical slices, left and right
                self.blackWhiteRange(x, maxWhiteRun, limits.top, limits.bottom, false)
            };
            match range {
                None => {
                    match lastRange {
                        Some(found) => {
                            // a region was found on the line before
                            if deltaX == 0 {
                                let lastY: i64 = y - deltaY;
                                if found.0 < centerX {
                                    if found.1 > centerX {
                                        // straddle: choose one end or the other by the direction
                                        return Ok(
                                            RXingResultPoint::new(
                                                if deltaY > 0 {
                                                    found.0
                                                } else {
                                                    found.1
                                                },
                                                lastY,
                                            ),
                                        );
                                    }
                                    return Ok(RXingResultPoint::new(found.0, lastY));
                                } else {
                                    return Ok(RXingResultPoint::new(found.1, lastY));
                                }
                            } else {
                                let lastX: i64 = x - deltaX;
                                if found.0 < centerY {
                                    if found.1 > centerY {
                                        return Ok(
                                            RXingResultPoint::new(
                                                lastX,
                                                if deltaX < 0 {
                                                    found.0
                                                } else {
                                                    found.1
                                                },
                                            ),
                                        );
                                    }
                                    return Ok(RXingResultPoint::new(lastX, found.0));
                                } else {
                                    return Ok(RXingResultPoint::new(lastX, found.1));
                                }
                            }
                        },
                        None => {
                            return Err(Exceptions::NotFoundException);
                        },
                    }
                },
                Some(found) => {
                    lastRange = Some(found);
                },
            }
            y = y + deltaY;
            x = x + deltaX;
        }
        Err(Exceptions::NotFoundException)
    }

    /// The start and the end of the region of a line that could be part of
    /// a barcode, if there is one: of row `fixedDimension` where the line is
    /// horizontal, of column `fixedDimension` where it is vertical.
    fn blackWhiteRange(
        &self,
        fixedDimension: i64,
        maxWhiteRun: i64,
        minDim: i64,
        maxDim: i64,
        horizontal: bool,
    ) -> (r: Option<(i64, i64)>)
        requires
            self.wf(),
            -0x1_0000_0010 <= minDim <= 0x1_0000_0010,
            -0x1_0000_0010 <= maxDim <= 0x1_0000_0010,
        ensures
            r is Some <==> black_white_range(
                self.spec_image(),
                fixedDimension as int,
                maxWhiteRun as int,
                minDim as int,
                maxDim as int,
                horizontal,
            ) is Some,
            r is Some ==> (r->Some_0.0 as int, r->Some_0.1 as int) == black_white_range(
                self.spec_image(),
                fixedDimension as int,
                maxWhiteRun as int,
                minDim as int,
                maxDim as int,
                horizontal,
            )->Some_0,
            r is Some ==> minDim <= r->Some_0.0 < r->Some_0.1 < maxDim,
    {
        let sum: i64 = minDim + maxDim;
        let center: i64 = if sum >= 0 {
            sum / 2
        } else {
            -((-sum) / 2)
        };
        let start: i64 = self.scanDown(fixedDimension, horizontal, center, minDim, maxWhiteRun) + 1;
        let end: i64 = self.scanUp(fixedDimension, horizontal, center, maxDim, maxWhiteRun) - 1;
        if end > start {
            Some((start, end))
        } else {
            None
        }
    }

    /// Walks down a line from `center` and gives the place where the walk
    /// stops.
    fn scanDown(
        &self,
        fixedDimension: i64,
        horizontal: bool,
        center: i64,
        minDim: i64,
        maxWhiteRun: i64,
    ) -> (r: i64)
        requires
            self.wf(),
            -0x1_0000_0010 <= minDim <= 0x1_0000_0010,
            -0x1_0000_0010 <= center <= 0x1_0000_0010,
        ensures
            r == scan_down(
                self.spec_image(),
                fixedDimension as int,
                horizontal,
                center as int,
                minDim as int,
                maxWhiteRun as int,
            ),
            minDim - 1 <= r || center < minDim,
            r <= center,
            -0x1_0000_0011 <= r <= 0x1_0000_0010,
    {
        let ghost m = self.spec_image();
        let mut start: i64 = center;
        while start >= minDim
            invariant
                self.wf(),
                m == self.spec_image(),
                -0x1_0000_0010 <= minDim <= 0x1_0000_0010,
                -0x1_0000_0010 <= center <= 0x1_0000_0010,
                -0x1_0000_0011 <= start <= center,
                minDim - 1 <= start || center < minDim,
                scan_down(
                    m,
                    fixedDimension as int,
                    horizontal,
                    start as int,
                    minDim as int,
                    maxWhiteRun as int,
                ) == scan_down(
                    m,
                    fixedDimension as int,
                    horizontal,
                    center as int,
                    minDim as int,
                    maxWhiteRun as int,
                ),
            decreases start - minDim + 1,
        {
            if self.linePixel(fixedDimension, start, horizontal) {
                start = start - 1;
            } else {
                let whiteRunStart: i64 = start;
                start = start - 1;
                while start >= minDim && !self.linePixel(fixedDimension, start, horizontal)
                    invariant
                        self.wf(),
                        m == self.spec_image(),
                        -0x1_0000_0010 <= minDim <= 0x1_0000_0010,
                        minDim - 1 <= start < whiteRunStart <= 0x1_0000_0010,
                        black_below(m, fixedDimension as int, horizontal, start as int, minDim as int)
                            == black_below(
                            m,
                            fixedDimension as int,
                            horizontal,
                            whiteRunStart - 1,
                            minDim as int,
                        ),
                    decreases start - minDim + 1,
                {
                    start = start - 1;
                }
                let whiteRunSize: i64 = whiteRunStart - start;
                if start < minDim || whiteRunSize > maxWhiteRun {
                    return whiteRunStart;
                }
            }
        }
        start
    }

    /// Walks up a line from `center` and gives the place where the walk
    /// stops.
    fn scanUp(
        &self,
        fixedDimension: i64,
        horizontal: bool,
        center: i64,
        maxDim: i64,
        maxWhiteRun: i64,
    ) -> (r: i64)
        requires
            self.wf(),
            -0x1_0000_0010 <= maxDim <= 0x1_0000_0010,
            -0x1_0000_0010 <= center <= 0x1_0000_0010,
        ensures
            r == scan_up(
                self.spec_image(),
                fixedDimension as int,
                horizontal,
                center as int,
                maxDim as int,
                maxWhiteRun as int,
            ),
            r <= maxDim || center > maxDim,
            center <= r,
            -0x1_0000_0010 <= r <= 0x1_0000_0010,
    {
        let ghost m = self.spec_image();
        let mut end: i64 = center;
        while end < maxDim
            invariant
                self.wf(),
                m == self.spec_image(),
                -0x1_0000_0010 <= maxDim <= 0x1_0000_0010,
                -0x1_0000_0010 <= center <= 0x1_0000_0010,
                center <= end <= 0x1_0000_0010,
                end <= maxDim || center > maxDim,
                scan_up(
                    m,
                    fixedDimension as int,
                    horizontal,
                    end as int,
                    maxDim as int,
                    maxWhiteRun as int,
                ) == scan_up(
                    m,
                    fixedDimension as int,
                    horizontal,
                    center as int,
                    maxDim as int,
                    maxWhiteRun as int,
                ),
            decreases maxDim - end,
        {
            if self.linePixel(fixedDimension, end, horizontal) {
                end = end + 1;
            } else {
                let whiteRunStart: i64 = end;
                end = end + 1;
                while end < maxDim && !self.linePixel(fixedDimension, end, horizontal)
                    invariant
                        self.wf(),
                        m == self.spec_image(),
                        -0x1_0000_0010 <= maxDim <= 0x1_0000_0010,
                        -0x1_0000_0010 <= whiteRunStart < end <= maxDim,
                        black_above(m, fixedDimension as int, horizontal, end as int, maxDim as int)
                            == black_above(
                            m,
                            fixedDimension as int,
                            horizontal,
                            whiteRunStart + 1,
                            maxDim as int,
                        ),
                    decreases maxDim - end,
                {
                    end = end + 1;
                }
                let whiteRunSize: i64 = end - whiteRunStart;
                if end >= maxDim || whiteRunSize > maxWhiteRun {
                    return whiteRunStart;
                }
            }
        }
        end
    }
}

} // verus!
