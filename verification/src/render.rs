//! Rendering: the deterministic linearization of a canvas into rows of
//! glyphs, top row first and left to right within a row, with a fixed,
//! closed glyph table from label to display character.

use vstd::arithmetic::div_mod::lemma_fundamental_div_mod_converse;
use vstd::prelude::*;

use crate::compose::Canvas;
use crate::compose::canvas_matches;
use crate::compose::canvas_wf;
use crate::compose::cell_at;
use crate::compose::cell_label;
use crate::geometry::Coords;
use crate::geometry::Representation;

verus! {

/// The fixed glyph table: one display character for each label. The label
/// set is a closed enum and this match covers all of it, so a label without
/// a glyph cannot exist.
pub open spec fn spec_glyph(r: Representation) -> char {
    match r {
        Representation::Circle => 'o',
        Representation::Canvas => ' ',
        Representation::HorizontalLine => '-',
        Representation::VerticalLine => '|',
        Representation::DiagonalLineLeftToRight => '/',
        Representation::DiagonalLineRightToLeft => '\\',
    }
}

/// The glyph for one label, per the fixed table.
pub fn glyph(r: Representation) -> (c: char)
    ensures
        c == spec_glyph(r),
{
    match r {
        Representation::Circle => 'o',
        Representation::Canvas => ' ',
        Representation::HorizontalLine => '-',
        Representation::VerticalLine => '|',
        Representation::DiagonalLineLeftToRight => '/',
        Representation::DiagonalLineRightToLeft => '\\',
    }
}

/// The rows a canvas renders to: row `r`, column `c` shows the glyph of the
/// canvas entry at scan-order index `r * width + c`. A pure function of the
/// canvas, so rendering is deterministic.
pub open spec fn render_rows(canvas: Canvas) -> Seq<Seq<char>> {
    let w = canvas.0.0 as int;
    let h = canvas.0.1 as int;
    Seq::new(h as nat, |r: int| Seq::new(w as nat, |c: int| spec_glyph(canvas.1@[r * w + c].2)))
}

/// Linearize the canvas into its rows of glyphs, in scan order.
#[verifier::loop_isolation(false)]
pub fn render(canvas: &Canvas) -> (rows: Vec<Vec<char>>)
    requires
        canvas_wf(*canvas),
    ensures
        rows@.len() == canvas.0.1,
        forall|r: int| 0 <= r < rows@.len() ==> (#[trigger] rows@[r])@ == render_rows(*canvas)[r],
{
    let w = canvas.0.0;
    let h = canvas.0.1;
    let ghost wi = w as int;
    let ghost hi = h as int;
    let n: usize = canvas.1.len();
    let mut rows: Vec<Vec<char>> = Vec::new();
    let mut r: u32 = 0;
    while r < h
        invariant
            r <= h,
            rows@.len() == r,
            forall|k: int| 0 <= k < r ==> (#[trigger] rows@[k])@ == render_rows(*canvas)[k],
        decreases h - r,
    {
        let mut row: Vec<char> = Vec::new();
        let mut c: u32 = 0;
        while c < w
            invariant
                c <= w,
                r < h,
                row@.len() == c,
                forall|k: int|
                    0 <= k < c ==> #[trigger] row@[k] == spec_glyph(
                        canvas.1@[r as int * wi + k].2,
                    ),
            decreases w - c,
        {
            proof {
                let ri = r as int;
                let ci = c as int;
                assert(0 <= ri * wi && ri * wi + ci < hi * wi) by (nonlinear_arith)
                    requires
                        0 <= ri < hi,
                        0 <= ci < wi,
                ;
                assert(hi * wi == wi * hi) by (nonlinear_arith);
                assert(ri * wi <= n && ri * wi + ci < n);
            }
            let idx: usize = (r as usize) * (w as usize) + (c as usize);
            let rep = canvas.1[idx].2;
            row.push(glyph(rep));
            c = c + 1;
        }
        proof {
            assert(row@ =~= render_rows(*canvas)[r as int]);
        }
        rows.push(row);
        r = r + 1;
    }
    rows
}

/// Rendering is deterministic: the rows are a function of the canvas alone,
/// so rendering the same canvas twice gives identical row sequences.
pub proof fn lemma_render_deterministic(canvas: Canvas, r1: Seq<Seq<char>>, r2: Seq<Seq<char>>)
    requires
        r1 == render_rows(canvas),
        r2 == render_rows(canvas),
    ensures
        r1 == r2,
{
}

/// Scan order is load-bearing: row `r`, column `c` of the rendering shows
/// the merged label of the grid cell `(c, height - 1 - r)` — row 0 is the
/// extent's top row, `y == height - 1`.
pub proof fn lemma_render_scan_order(
    canvas: Canvas,
    layers: Seq<(Representation, Seq<Coords>)>,
    r: int,
    c: int,
)
    requires
        canvas_matches(canvas, layers),
        0 <= r < canvas.0.1 as int,
        0 <= c < canvas.0.0 as int,
    ensures
        render_rows(canvas)[r][c] == spec_glyph(
            cell_label(layers, Coords(c as u32, (canvas.0.1 - 1 - r) as u32)),
        ),
{
    let w = canvas.0.0 as int;
    let h = canvas.0.1 as int;
    let i = r * w + c;
    assert(0 <= i < w * h) by (nonlinear_arith)
        requires
            0 <= r < h,
            0 <= c < w,
            i == r * w + c,
    ;
    lemma_fundamental_div_mod_converse(i, w, r, c);
    assert(canvas.1@[i] == cell_at(layers, w, h, i));
}

} // verus!
