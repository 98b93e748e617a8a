//! Line rasterization: an incremental error-accumulation walk (Bresenham
//! stepping) from one endpoint to the other, together with the closed form
//! that pins down every cell the walk visits.

use vstd::arithmetic::div_mod::lemma_basic_div;
use vstd::arithmetic::div_mod::lemma_div_is_ordered;
use vstd::arithmetic::div_mod::lemma_div_pos_is_pos;
use vstd::arithmetic::div_mod::lemma_fundamental_div_mod;
use vstd::arithmetic::div_mod::lemma_mod_bound;
use vstd::arithmetic::div_mod::lemma_fundamental_div_mod_converse;
use vstd::arithmetic::mul::lemma_mul_inequality;
use vstd::arithmetic::mul::lemma_mul_nonnegative;
use vstd::prelude::*;

use crate::geometry::Coords;
use crate::geometry::Dimensions;
use crate::geometry::Representation;
use crate::geometry::coords_bounded;
use crate::geometry::spec_dims;

verus! {

/// A rasterized line segment: its bounding extent, the cells it occupies in
/// walk order, and its direction label.
#[derive(Debug)]
pub struct Line(pub Dimensions, pub Vec<Coords>, pub Representation);

/// The distance between two integers.
pub open spec fn abs_diff(a: int, b: int) -> int {
    if a >= b {
        a - b
    } else {
        b - a
    }
}

/// The unit step that moves from `a` toward `b` (toward smaller values when
/// `a == b`, where it is never taken).
pub open spec fn dir(a: int, b: int) -> int {
    if a < b {
        1
    } else {
        -1
    }
}

/// `v` lies between `a` and `b` inclusive, whichever of the two is smaller.
pub open spec fn within(a: u32, b: u32, v: u32) -> bool {
    (a <= v <= b) || (b <= v <= a)
}

/// The minor-axis offset after `i` steps of a Bresenham walk whose major and
/// minor spans are `major` and `minor`: the least `b` with
/// `b * major >= i * minor - major / 2`.
pub open spec fn bres_minor(i: int, major: int, minor: int) -> int {
    (i * minor - major / 2 + major - 1) / major
}

/// The direction label of the segment, read off the endpoints: equal y gives
/// a horizontal line, equal x a vertical one, and otherwise the y-ordering of
/// the endpoints tells the two diagonals apart.
pub open spec fn line_label(start: Coords, end: Coords) -> Representation {
    if start.1 == end.1 {
        Representation::HorizontalLine
    } else if start.0 == end.0 {
        Representation::VerticalLine
    } else if start.1 > end.1 {
        Representation::DiagonalLineRightToLeft
    } else {
        Representation::DiagonalLineLeftToRight
    }
}

/// Every cell of the Bresenham walk from `start` to `end`: the walk advances
/// one cell per step along the dominant axis, and the minor axis follows the
/// `bres_minor` closed form.
pub open spec fn line_points(start: Coords, end: Coords) -> Seq<Coords> {
    let x0 = start.0 as int;
    let y0 = start.1 as int;
    let x1 = end.0 as int;
    let y1 = end.1 as int;
    let dx = abs_diff(x1, x0);
    let dy = abs_diff(y1, y0);
    let sx = dir(x0, x1);
    let sy = dir(y0, y1);
    if dx > dy {
        Seq::new(
            (dx + 1) as nat,
            |i: int|
                Coords((x0 + sx * i) as u32, (y0 + sy * bres_minor(i, dx, dy)) as u32),
        )
    } else if dy > 0 {
        Seq::new(
            (dy + 1) as nat,
            |i: int|
                Coords((x0 + sx * bres_minor(i, dy, dx)) as u32, (y0 + sy * i) as u32),
        )
    } else {
        seq![start]
    }
}

/// `major / 2` leaves at least one unit of headroom below `major`.
proof fn lemma_half_headroom(major: int)
    requires
        1 <= major,
    ensures
        0 <= major - 1 - major / 2 < major,
{
    lemma_fundamental_div_mod(major, 2);
    lemma_mod_bound(major, 2);
}

/// The walk starts on the minor axis: `bres_minor(0, major, minor) == 0`.
pub proof fn lemma_bres_minor_zero(major: int, minor: int)
    requires
        1 <= major,
    ensures
        bres_minor(0, major, minor) == 0,
{
    assert(0 * minor == 0);
    lemma_half_headroom(major);
    lemma_basic_div(major - 1 - major / 2, major);
}

/// The walk ends on the minor axis: `bres_minor(major, major, minor) == minor`.
pub proof fn lemma_bres_minor_last(major: int, minor: int)
    requires
        1 <= major,
    ensures
        bres_minor(major, major, minor) == minor,
{
    lemma_half_headroom(major);
    assert(major * minor - major / 2 + major - 1 == minor * major + (major - 1 - major / 2)) by {
        assert(major * minor == minor * major) by (nonlinear_arith);
    }
    lemma_fundamental_div_mod_converse(
        major * minor - major / 2 + major - 1,
        major,
        minor,
        major - 1 - major / 2,
    );
}

/// Each step moves the minor axis by zero or one cells.
pub proof fn lemma_bres_minor_step(i: int, major: int, minor: int)
    requires
        1 <= major,
        0 <= minor <= major,
    ensures
        bres_minor(i, major, minor) <= bres_minor(i + 1, major, minor) <= bres_minor(
            i,
            major,
            minor,
        ) + 1,
{
    let n = i * minor - major / 2 + major - 1;
    let q = n / major;
    let r = n % major;
    lemma_fundamental_div_mod(n, major);
    assert((i + 1) * minor == i * minor + minor) by (nonlinear_arith);
    if r + minor < major {
        lemma_fundamental_div_mod_converse(n + minor, major, q, r + minor);
    } else {
        assert(n + minor == (q + 1) * major + (r + minor - major)) by (nonlinear_arith)
            requires
                n == major * q + r,
        ;
        lemma_fundamental_div_mod_converse(n + minor, major, q + 1, r + minor - major);
    }
}

/// The minor-axis offset stays between 0 and the minor span.
pub proof fn lemma_bres_minor_bounds(i: int, major: int, minor: int)
    requires
        1 <= major,
        0 <= minor,
        0 <= i <= major,
    ensures
        0 <= bres_minor(i, major, minor) <= minor,
{
    lemma_mul_nonnegative(i, minor);
    lemma_half_headroom(major);
    lemma_div_pos_is_pos(i * minor - major / 2 + major - 1, major);
    lemma_mul_inequality(i, major, minor);
    lemma_div_is_ordered(
        i * minor - major / 2 + major - 1,
        major * minor - major / 2 + major - 1,
        major,
    );
    assert(i * minor <= major * minor) by {
        assert(major * minor == minor * major) by (nonlinear_arith);
    }
    lemma_bres_minor_last(major, minor);
}

/// A minor-axis offset read off the error bounds of the walk is exactly
/// `bres_minor`.
pub proof fn lemma_bres_minor_from_err(i: int, major: int, minor: int, b: int)
    requires
        1 <= major,
        i * minor - major / 2 <= b * major <= i * minor - major / 2 + major - 1,
    ensures
        b == bres_minor(i, major, minor),
{
    let n = i * minor - major / 2 + major - 1;
    assert(n == b * major + (n - b * major));
    lemma_fundamental_div_mod_converse(n, major, b, n - b * major);
}

/// Consecutive cells differ by at most one in x and at most one in y: the
/// walk is 8-connected and leaves no gaps.
pub open spec fn eight_connected(s: Seq<Coords>) -> bool {
    forall|i: int|
        0 <= i < s.len() - 1 ==> abs_diff(#[trigger] s[i + 1].0 as int, s[i].0 as int) <= 1
            && abs_diff(s[i + 1].1 as int, s[i].1 as int) <= 1
}

/// Both endpoints are part of the rasterized line: the walk starts at
/// `start` and ends at `end`.
pub proof fn lemma_line_points_endpoints(start: Coords, end: Coords)
    ensures
        line_points(start, end).len() >= 1,
        line_points(start, end)[0] == start,
        line_points(start, end).last() == end,
{
    let x0 = start.0 as int;
    let y0 = start.1 as int;
    let x1 = end.0 as int;
    let y1 = end.1 as int;
    let dx = abs_diff(x1, x0);
    let dy = abs_diff(y1, y0);
    if dx > dy {
        lemma_bres_minor_zero(dx, dy);
        lemma_bres_minor_last(dx, dy);
        assert(dir(x0, x1) * dx == x1 - x0);
        assert(dir(y0, y1) * dy == y1 - y0);
        assert(dir(x0, x1) * 0 == 0);
        assert(dir(y0, y1) * 0 == 0);
    } else if dy > 0 {
        lemma_bres_minor_zero(dy, dx);
        lemma_bres_minor_last(dy, dx);
        assert(dir(x0, x1) * dx == x1 - x0);
        assert(dir(y0, y1) * dy == y1 - y0);
        assert(dir(x0, x1) * 0 == 0);
        assert(dir(y0, y1) * 0 == 0);
    } else {
        assert(start == end);
    }
}

/// Every cell of the rasterized line lies in the bounding box of the two
/// endpoints; in particular no intermediate cell leaves the grid.
pub proof fn lemma_line_points_within(start: Coords, end: Coords, i: int)
    requires
        0 <= i < line_points(start, end).len(),
    ensures
        within(start.0, end.0, line_points(start, end)[i].0),
        within(start.1, end.1, line_points(start, end)[i].1),
{
    let x0 = start.0 as int;
    let y0 = start.1 as int;
    let x1 = end.0 as int;
    let y1 = end.1 as int;
    let dx = abs_diff(x1, x0);
    let dy = abs_diff(y1, y0);
    if dx > dy {
        lemma_bres_minor_bounds(i, dx, dy);
        assert(dir(x0, x1) * i == if x0 < x1 {
            i
        } else {
            -i
        });
        assert(dir(y0, y1) * bres_minor(i, dx, dy) == if y0 < y1 {
            bres_minor(i, dx, dy)
        } else {
            -bres_minor(i, dx, dy)
        });
    } else if dy > 0 {
        lemma_bres_minor_bounds(i, dy, dx);
        assert(dir(y0, y1) * i == if y0 < y1 {
            i
        } else {
            -i
        });
        assert(dir(x0, x1) * bres_minor(i, dy, dx) == if x0 < x1 {
            bres_minor(i, dy, dx)
        } else {
            -bres_minor(i, dy, dx)
        });
    }
}

/// The rasterized line is an 8-connected path.
pub proof fn lemma_line_points_connected(start: Coords, end: Coords)
    ensures
        eight_connected(line_points(start, end)),
{
    let x0 = start.0 as int;
    let y0 = start.1 as int;
    let x1 = end.0 as int;
    let y1 = end.1 as int;
    let dx = abs_diff(x1, x0);
    let dy = abs_diff(y1, y0);
    let pts = line_points(start, end);
    assert forall|i: int|
        0 <= i < pts.len() - 1 implies abs_diff(#[trigger] pts[i + 1].0 as int, pts[i].0 as int)
        <= 1 && abs_diff(pts[i + 1].1 as int, pts[i].1 as int) <= 1 by {
        lemma_line_points_within(start, end, i);
        lemma_line_points_within(start, end, i + 1);
        if dx > dy {
            lemma_bres_minor_bounds(i, dx, dy);
            lemma_bres_minor_bounds(i + 1, dx, dy);
            lemma_bres_minor_step(i, dx, dy);
            let b0 = bres_minor(i, dx, dy);
            let b1 = bres_minor(i + 1, dx, dy);
            if y0 < y1 {
                assert(pts[i].1 as int == y0 + b0);
                assert(pts[i + 1].1 as int == y0 + b1);
            } else {
                assert(pts[i].1 as int == y0 - b0);
                assert(pts[i + 1].1 as int == y0 - b1);
            }
            if x0 < x1 {
                assert(pts[i].0 as int == x0 + i);
                assert(pts[i + 1].0 as int == x0 + i + 1);
            } else {
                assert(pts[i].0 as int == x0 - i);
                assert(pts[i + 1].0 as int == x0 - i - 1);
            }
        } else if dy > 0 {
            lemma_bres_minor_bounds(i, dy, dx);
            lemma_bres_minor_bounds(i + 1, dy, dx);
            lemma_bres_minor_step(i, dy, dx);
            let a0 = bres_minor(i, dy, dx);
            let a1 = bres_minor(i + 1, dy, dx);
            if x0 < x1 {
                assert(pts[i].0 as int == x0 + a0);
                assert(pts[i + 1].0 as int == x0 + a1);
            } else {
                assert(pts[i].0 as int == x0 - a0);
                assert(pts[i + 1].0 as int == x0 - a1);
            }
            if y0 < y1 {
                assert(pts[i].1 as int == y0 + i);
                assert(pts[i + 1].1 as int == y0 + i + 1);
            } else {
                assert(pts[i].1 as int == y0 - i);
                assert(pts[i + 1].1 as int == y0 - i - 1);
            }
        }
    }
}

impl Line {
    /// The direction label of the segment between the two endpoints.
    pub fn get_line_representation(start: Coords, end: Coords) -> (r: Representation)
        ensures
            r == line_label(start, end),
    {
        if start.1 == end.1 {
            Representation::HorizontalLine
        } else if start.0 == end.0 {
            Representation::VerticalLine
        } else if start.1 > end.1 {
            Representation::DiagonalLineRightToLeft
        } else {
            Representation::DiagonalLineLeftToRight
        }
    }

    /// Rasterize the segment from `start` to `end` by Bresenham stepping:
    /// the cells are exactly `line_points(start, end)`, both endpoints
    /// included, on an 8-connected path that never leaves the endpoints'
    /// bounding box.
    pub fn new(start: Coords, end: Coords) -> (line: Line)
        requires
            start.0 < u32::MAX,
            start.1 < u32::MAX,
            end.0 < u32::MAX,
            end.1 < u32::MAX,
        ensures
            line.1@ == line_points(start, end),
            line.0 == spec_dims(line.1@),
            line.2 == line_label(start, end),
            line.1@.len() >= 1,
            line.1@[0] == start,
            line.1@.last() == end,
            forall|i: int|
                0 <= i < line.1@.len() ==> within(start.0, end.0, #[trigger] line.1@[i].0)
                    && within(start.1, end.1, line.1@[i].1),
            eight_connected(line.1@),
            coords_bounded(line.1@),
    {
        let dx: u32 = if end.0 >= start.0 {
            end.0 - start.0
        } else {
            start.0 - end.0
        };
        let dy: u32 = if end.1 >= start.1 {
            end.1 - start.1
        } else {
            start.1 - end.1
        };
        let mut coords: Vec<Coords>;
        if dx > dy {
            coords = walk_shallow(start, end);
        } else if dy > 0 {
            coords = walk_steep(start, end);
        } else {
            coords = Vec::new();
            coords.push(start);
            proof {
                assert(coords@ =~= line_points(start, end));
            }
        }
        proof {
            lemma_line_points_endpoints(start, end);
            lemma_line_points_connected(start, end);
            assert forall|k: int|
                0 <= k < coords@.len() implies within(start.0, end.0, #[trigger] coords@[k].0)
                && within(start.1, end.1, coords@[k].1) by {
                lemma_line_points_within(start, end, k);
            }
            assert(coords_bounded(coords@)) by {
                assert forall|k: int|
                    0 <= k < coords@.len() implies #[trigger] coords@[k].0 < u32::MAX
                    && coords@[k].1 < u32::MAX by {
                    lemma_line_points_within(start, end, k);
                }
            }
        }
        let dimensions = Dimensions::from_coords(&coords);
        let representation = Line::get_line_representation(start, end);
        Line(dimensions, coords, representation)
    }
}

/// The walk for a segment whose x-span dominates: x advances one cell per
/// step, and the accumulated error decides when y follows.
#[verifier::loop_isolation(false)]
#[verifier::rlimit(60)]
fn walk_shallow(start: Coords, end: Coords) -> (v: Vec<Coords>)
    requires
        start.0 < u32::MAX,
        start.1 < u32::MAX,
        end.0 < u32::MAX,
        end.1 < u32::MAX,
        abs_diff(end.0 as int, start.0 as int) > abs_diff(end.1 as int, start.1 as int),
    ensures
        v@ == line_points(start, end),
{
    let ghost x0 = start.0 as int;
    let ghost y0 = start.1 as int;
    let ghost x1 = end.0 as int;
    let ghost y1 = end.1 as int;
    let ghost pts = line_points(start, end);
    let dx: u32 = if end.0 >= start.0 {
        end.0 - start.0
    } else {
        start.0 - end.0
    };
    let dy: u32 = if end.1 >= start.1 {
        end.1 - start.1
    } else {
        start.1 - end.1
    };
    let x_inc: bool = start.0 < end.0;
    let y_inc: bool = start.1 < end.1;
    let mut coords: Vec<Coords> = Vec::new();
    let mut xm: u32 = start.0;
    let mut ym: u32 = start.1;
    let mut err: i64 = (dx / 2) as i64;
    let mut i: u32 = 0;
    let ghost mut b: int = 0;
    proof {
        lemma_half_headroom(dx as int);
    }
    while i <= dx
        invariant
            i <= dx + 1,
            coords@ == pts.take(i as int),
            i <= dx ==> xm as int == x0 + dir(x0, x1) * i,
            i <= dx ==> ym as int == y0 + dir(y0, y1) * b,
            i <= dx ==> 0 <= b <= dy,
            i <= dx ==> err as int == dx / 2 + b * dx - i * dy,
            i <= dx ==> 0 <= err <= dx - 1,
        decreases dx + 1 - i,
    {
        proof {
            lemma_bres_minor_from_err(i as int, dx as int, dy as int, b);
            if x_inc {
                assert(xm as int == x0 + i);
            } else {
                assert(xm as int == x0 - i);
            }
            assert(pts[i as int] == Coords(xm, ym));
            assert(pts.take(i as int + 1) =~= pts.take(i as int) + seq![pts[i as int]]);
        }
        coords.push(Coords(xm, ym));
        if i < dx {
            xm = if x_inc {
                xm + 1
            } else {
                xm - 1
            };
            if err < dy as i64 {
                proof {
                    assert(b < dy) by {
                        if b == dy {
                            assert(b * dx - i * dy >= dy) by (nonlinear_arith)
                                requires
                                    b == dy,
                                    0 <= dy,
                                    i < dx,
                            ;
                            lemma_div_pos_is_pos(dx as int, 2);
                        }
                    }
                }
                ym = if y_inc {
                    ym + 1
                } else {
                    ym - 1
                };
                err = err - (dy as i64) + (dx as i64);
                proof {
                    b = b + 1;
                    assert((b - 1) * dx + dx == b * dx) by (nonlinear_arith);
                }
            } else {
                err = err - (dy as i64);
            }
            proof {
                assert((i + 1) * dy == i * dy + dy) by (nonlinear_arith);
            }
        }
        i = i + 1;
    }
    proof {
        assert(coords@ == pts.take(pts.len() as int));
        assert(pts.take(pts.len() as int) =~= pts);
    }
    coords
}

/// The walk for a segment whose y-span dominates or ties: y advances one
/// cell per step, and the accumulated error decides when x follows.
#[verifier::loop_isolation(false)]
#[verifier::rlimit(60)]
fn walk_steep(start: Coords, end: Coords) -> (v: Vec<Coords>)
    requires
        start.0 < u32::MAX,
        start.1 < u32::MAX,
        end.0 < u32::MAX,
        end.1 < u32::MAX,
        abs_diff(end.0 as int, start.0 as int) <= abs_diff(end.1 as int, start.1 as int),
        abs_diff(end.1 as int, start.1 as int) > 0,
    ensures
        v@ == line_points(start, end),
{
    let ghost x0 = start.0 as int;
    let ghost y0 = start.1 as int;
    let ghost x1 = end.0 as int;
    let ghost y1 = end.1 as int;
    let ghost pts = line_points(start, end);
    let dx: u32 = if end.0 >= start.0 {
        end.0 - start.0
    } else {
        start.0 - end.0
    };
    let dy: u32 = if end.1 >= start.1 {
        end.1 - start.1
    } else {
        start.1 - end.1
    };
    let x_inc: bool = start.0 < end.0;
    let y_inc: bool = start.1 < end.1;
    let mut coords: Vec<Coords> = Vec::new();
    let mut xm: u32 = start.0;
    let mut ym: u32 = start.1;
    let mut err: i64 = -((dy / 2) as i64);
    let mut i: u32 = 0;
    let ghost mut a: int = 0;
    proof {
        lemma_half_headroom(dy as int);
    }
    while i <= dy
        invariant
            i <= dy + 1,
            coords@ == pts.take(i as int),
            i <= dy ==> ym as int == y0 + dir(y0, y1) * i,
            i <= dy ==> xm as int == x0 + dir(x0, x1) * a,
            i <= dy ==> 0 <= a <= dx,
            i <= dy ==> err as int == i * dx - a * dy - dy / 2,
            i <= dy ==> 1 - dy <= err <= 0,
        decreases dy + 1 - i,
    {
        proof {
            lemma_bres_minor_from_err(i as int, dy as int, dx as int, a);
            if y_inc {
                assert(ym as int == y0 + i);
            } else {
                assert(ym as int == y0 - i);
            }
            assert(pts[i as int] == Coords(xm, ym));
            assert(pts.take(i as int + 1) =~= pts.take(i as int) + seq![pts[i as int]]);
        }
        coords.push(Coords(xm, ym));
        if i < dy {
            if err > -(dx as i64) {
                proof {
                    assert(a < dx) by {
                        if a == dx {
                            assert(i * dx - a * dy <= -dx) by (nonlinear_arith)
                                requires
                                    a == dx,
                                    i < dy,
                                    0 <= dx,
                            ;
                            lemma_div_pos_is_pos(dy as int, 2);
                        }
                    }
                }
                xm = if x_inc {
                    xm + 1
                } else {
                    xm - 1
                };
                err = err - (dy as i64) + (dx as i64);
                proof {
                    a = a + 1;
                    assert((a - 1) * dy + dy == a * dy) by (nonlinear_arith);
                }
            } else {
                err = err + (dx as i64);
            }
            ym = if y_inc {
                ym + 1
            } else {
                ym - 1
            };
            proof {
                assert((i + 1) * dx == i * dx + dx) by (nonlinear_arith);
            }
        }
        i = i + 1;
    }
    proof {
        assert(coords@ == pts.take(pts.len() as int));
        assert(pts.take(pts.len() as int) =~= pts);
    }
    coords
}

} // verus!
