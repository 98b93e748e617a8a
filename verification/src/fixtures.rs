//! Small ready-made shapes for demonstrations and tests.

use vstd::prelude::*;

use crate::circle::Circle;
use crate::circle::circle_points;
use crate::compose::Plottable;
use crate::compose::lemma_circle_wf;
use crate::compose::lemma_line_wf;
use crate::geometry::Coords;
use crate::geometry::spec_dims;
use crate::line::Line;
use crate::line::line_label;
use crate::line::line_points;

verus! {

/// The diagonal line from (0, 0) to (2, 2).
pub fn fixtures_diagonal_line_ltr() -> (l: Line)
    ensures
        l.1@ == line_points(Coords(0, 0), Coords(2, 2)),
        l.0 == spec_dims(l.1@),
        l.2 == line_label(Coords(0, 0), Coords(2, 2)),
        l.wf(),
{
    let l = Line::new(Coords(0, 0), Coords(2, 2));
    proof {
        lemma_line_wf(l);
    }
    l
}

/// The horizontal line from (0, 0) to (2, 0).
pub fn fixtures_horizontal_line() -> (l: Line)
    ensures
        l.1@ == line_points(Coords(0, 0), Coords(2, 0)),
        l.0 == spec_dims(l.1@),
        l.2 == line_label(Coords(0, 0), Coords(2, 0)),
        l.wf(),
{
    let l = Line::new(Coords(0, 0), Coords(2, 0));
    proof {
        lemma_line_wf(l);
    }
    l
}

/// The vertical line from (0, 0) to (0, 3).
pub fn fixtures_vertical_line() -> (l: Line)
    ensures
        l.1@ == line_points(Coords(0, 0), Coords(0, 3)),
        l.0 == spec_dims(l.1@),
        l.2 == line_label(Coords(0, 0), Coords(0, 3)),
        l.wf(),
{
    let l = Line::new(Coords(0, 0), Coords(0, 3));
    proof {
        lemma_line_wf(l);
    }
    l
}

/// The circle of radius 1 around (1, 1).
pub fn fixtures_circle() -> (c: Circle)
    ensures
        c.1@ == circle_points(Coords(1, 1), 1),
        c.0 == spec_dims(c.1@),
        c.wf(),
{
    let c = Circle::new(Coords(1, 1), 1);
    proof {
        lemma_circle_wf(c);
    }
    c
}

} // verus!
