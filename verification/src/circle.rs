//! Circle rasterization: midpoint stepping through one octant, eight
//! symmetric reflections per step, points that would leave the non-negative
//! quadrant dropped, and the result deduplicated in first-occurrence order.

use vstd::prelude::*;

use crate::geometry::Coords;
use crate::geometry::Dimensions;
use crate::geometry::contains_coords;
use crate::geometry::coords_bounded;
use crate::geometry::spec_dims;

verus! {

/// A rasterized circle: its bounding extent and the deduplicated cells it
/// occupies.
#[derive(Debug)]
pub struct Circle(pub Dimensions, pub Vec<Coords>);

/// The octant offsets visited by midpoint stepping from state `(x, y, err)`:
/// each step records `(x, y)`, raises `y`, and lowers `x` when the error
/// term says the circle has curved inward.
pub open spec fn octant_from(x: int, y: int, err: int) -> Seq<(int, int)>
    decreases (if x < y {
        0int
    } else {
        x - y + 1
    }),
{
    if x < y {
        Seq::empty()
    } else {
        let y2 = y + 1;
        let e1 = err + 1 + 2 * y2;
        let x2 = if 2 * (e1 - x) + 1 > 0 {
            x - 1
        } else {
            x
        };
        let e2 = if 2 * (e1 - x) + 1 > 0 {
            e1 + 1 - 2 * (x - 1)
        } else {
            e1
        };
        seq![(x, y)] + octant_from(x2, y2, e2)
    }
}

/// The cell at `(x, y)` when it lies in the non-negative quadrant, and
/// nothing otherwise: out-of-quadrant reflections are dropped.
pub open spec fn maybe_pt(x: int, y: int) -> Seq<Coords> {
    if x >= 0 && y >= 0 {
        seq![Coords(x as u32, y as u32)]
    } else {
        Seq::empty()
    }
}

/// The eight symmetric reflections of the octant offset `(px, py)` around
/// the center `(cx, cy)`, in generation order, without the reflections that
/// would leave the quadrant.
pub open spec fn reflections(cx: int, cy: int, px: int, py: int) -> Seq<Coords> {
    maybe_pt(cx + px, cy + py) + maybe_pt(cx + py, cy + px) + maybe_pt(cx - py, cy + px)
        + maybe_pt(cx - px, cy + py) + maybe_pt(cx - px, cy - py) + maybe_pt(cx - py, cy - px)
        + maybe_pt(cx + py, cy - px) + maybe_pt(cx + px, cy - py)
}

/// All reflections of all the given octant offsets, in generation order.
pub open spec fn expand_octants(cx: int, cy: int, pts: Seq<(int, int)>) -> Seq<Coords>
    decreases pts.len(),
{
    if pts.len() == 0 {
        Seq::empty()
    } else {
        reflections(cx, cy, pts[0].0, pts[0].1) + expand_octants(cx, cy, pts.drop_first())
    }
}

/// Every cell the midpoint walk generates for the circle, duplicates and
/// all, in generation order.
pub open spec fn circle_raw(center: Coords, radius: u32) -> Seq<Coords> {
    expand_octants(center.0 as int, center.1 as int, octant_from(radius as int, 0, 0))
}

/// `s` with every repeated element removed, keeping first occurrences in
/// their original order.
pub open spec fn dedup_seq(s: Seq<Coords>) -> Seq<Coords>
    decreases s.len(),
{
    if s.len() == 0 {
        Seq::empty()
    } else if s.drop_last().contains(s.last()) {
        dedup_seq(s.drop_last())
    } else {
        dedup_seq(s.drop_last()) + seq![s.last()]
    }
}

/// The cells of the rasterized circle: the generated cells, deduplicated.
pub open spec fn circle_points(center: Coords, radius: u32) -> Seq<Coords> {
    dedup_seq(circle_raw(center, radius))
}

/// Appending one element extends membership by exactly that element.
proof fn lemma_append_contains(a: Seq<Coords>, x: Coords, c: Coords)
    ensures
        (a + seq![x]).contains(c) <==> (a.contains(c) || x == c),
{
    if a.contains(c) {
        let i = choose|i: int| 0 <= i < a.len() && a[i] == c;
        assert((a + seq![x])[i] == c);
    }
    if x == c {
        assert((a + seq![x])[a.len() as int] == c);
    }
    if (a + seq![x]).contains(c) {
        let i = choose|i: int| 0 <= i < (a + seq![x]).len() && (a + seq![x])[i] == c;
        if i < a.len() {
            assert(a[i] == c);
        }
    }
}

/// Deduplication keeps exactly the members of the original sequence.
pub proof fn lemma_dedup_contains(s: Seq<Coords>, c: Coords)
    ensures
        dedup_seq(s).contains(c) <==> s.contains(c),
    decreases s.len(),
{
    if s.len() == 0 {
    } else {
        lemma_dedup_contains(s.drop_last(), c);
        assert(s.contains(c) <==> (s.drop_last().contains(c) || s.last() == c)) by {
            if s.contains(c) {
                let i = choose|i: int| 0 <= i < s.len() && s[i] == c;
                if i < s.len() - 1 {
                    assert(s.drop_last()[i] == c);
                }
            }
            if s.drop_last().contains(c) {
                let i = choose|i: int|
                    0 <= i < s.drop_last().len() && s.drop_last()[i] == c;
                assert(s[i] == c);
            }
            if s.last() == c {
                assert(s[s.len() - 1] == c);
            }
        }
        if s.drop_last().contains(s.last()) {
            if s.last() == c {
                lemma_dedup_contains(s.drop_last(), s.last());
            }
        } else {
            lemma_append_contains(dedup_seq(s.drop_last()), s.last(), c);
        }
    }
}

/// Deduplication leaves no repeated elements.
pub proof fn lemma_dedup_no_duplicates(s: Seq<Coords>)
    ensures
        dedup_seq(s).no_duplicates(),
    decreases s.len(),
{
    if s.len() == 0 {
    } else {
        lemma_dedup_no_duplicates(s.drop_last());
        if !s.drop_last().contains(s.last()) {
            lemma_dedup_contains(s.drop_last(), s.last());
            let d = dedup_seq(s.drop_last());
            let e = d + seq![s.last()];
            assert forall|i: int, j: int|
                0 <= i < e.len() && 0 <= j < e.len() && i != j implies e[i] != e[j] by {
                if i < d.len() && j < d.len() {
                    assert(d[i] == e[i] && d[j] == e[j]);
                } else if j == d.len() && i < d.len() {
                    if d[i] == s.last() {
                        assert(d.contains(s.last()));
                    }
                } else if i == d.len() && j < d.len() {
                    if d[j] == s.last() {
                        assert(d.contains(s.last()));
                    }
                }
            }
        }
    }
}

/// Every octant offset satisfies `0 <= py <= px <= x`: the walk stays in
/// the first octant and never exceeds its starting x.
pub proof fn lemma_octant_bounds(x: int, y: int, err: int)
    requires
        0 <= y,
    ensures
        forall|k: int|
            0 <= k < octant_from(x, y, err).len() ==> {
                let p = #[trigger] octant_from(x, y, err)[k];
                0 <= p.1 && p.1 <= p.0 && p.0 <= x
            },
    decreases (if x < y {
        0int
    } else {
        x - y + 1
    }),
{
    if x < y {
    } else {
        let y2 = y + 1;
        let e1 = err + 1 + 2 * y2;
        let x2 = if 2 * (e1 - x) + 1 > 0 {
            x - 1
        } else {
            x
        };
        let e2 = if 2 * (e1 - x) + 1 > 0 {
            e1 + 1 - 2 * (x - 1)
        } else {
            e1
        };
        lemma_octant_bounds(x2, y2, e2);
        let s = octant_from(x, y, err);
        let rest = octant_from(x2, y2, e2);
        assert forall|k: int|
            0 <= k < s.len() implies {
            let p = #[trigger] s[k];
            0 <= p.1 && p.1 <= p.0 && p.0 <= x
        } by {
            if k > 0 {
                assert(s[k] == rest[k - 1]);
            }
        }
    }
}

/// Every generated cell stays within `radius` of the center on both axes.
pub proof fn lemma_expand_bounds(cx: int, cy: int, pts: Seq<(int, int)>, r: int)
    requires
        0 <= cx,
        0 <= cy,
        forall|k: int|
            0 <= k < pts.len() ==> {
                let p = #[trigger] pts[k];
                0 <= p.1 && p.1 <= p.0 && p.0 <= r
            },
    ensures
        forall|k: int|
            0 <= k < expand_octants(cx, cy, pts).len() ==> {
                let q = #[trigger] expand_octants(cx, cy, pts)[k];
                q.0 <= cx + r && q.1 <= cy + r
            },
    decreases pts.len(),
{
    if pts.len() == 0 {
    } else {
        assert(pts[0] == pts[0]);
        lemma_expand_bounds(cx, cy, pts.drop_first(), r);
        assert(forall|k: int|
            0 <= k < pts.drop_first().len() ==> #[trigger] pts.drop_first()[k] == pts[k + 1]);
        let e = expand_octants(cx, cy, pts);
        let refl = reflections(cx, cy, pts[0].0, pts[0].1);
        let rest = expand_octants(cx, cy, pts.drop_first());
        assert forall|k: int|
            0 <= k < e.len() implies {
            let q = #[trigger] e[k];
            q.0 <= cx + r && q.1 <= cy + r
        } by {
            if k < refl.len() {
                assert(e[k] == refl[k]);
            } else {
                assert(e[k] == rest[k - refl.len()]);
            }
        }
    }
}

/// The first generated cell is the one `radius` to the right of the center.
pub proof fn lemma_circle_raw_first(center: Coords, radius: u32)
    requires
        center.0 + radius < u32::MAX,
    ensures
        circle_raw(center, radius).len() >= 1,
        circle_raw(center, radius)[0] == Coords((center.0 + radius) as u32, center.1),
{
    let cx = center.0 as int;
    let cy = center.1 as int;
    let s = octant_from(radius as int, 0, 0);
    assert(s[0] == (radius as int, 0int));
    let refl = reflections(cx, cy, radius as int, 0);
    assert(refl[0] == Coords((cx + radius) as u32, cy as u32));
    assert(circle_raw(center, radius)[0] == refl[0]);
}

/// Radius zero yields exactly the single center point: every reflection of
/// the one octant offset lands on the center, and deduplication keeps one.
pub proof fn lemma_circle_radius_zero(center: Coords)
    ensures
        circle_points(center, 0) == seq![center],
{
    let cx = center.0 as int;
    let cy = center.1 as int;
    assert(octant_from(-1, 1, 6) =~= Seq::<(int, int)>::empty());
    assert(octant_from(0, 0, 0) =~= seq![(0int, 0int)]);
    assert(maybe_pt(cx + 0, cy + 0) =~= seq![center]);
    let refl = reflections(cx, cy, 0, 0);
    assert(refl =~= seq![center, center, center, center, center, center, center, center]);
    assert(seq![(0int, 0int)].drop_first() =~= Seq::<(int, int)>::empty());
    assert(expand_octants(cx, cy, Seq::<(int, int)>::empty()) =~= Seq::<Coords>::empty());
    let raw = circle_raw(center, 0);
    assert(raw =~= refl);
    let s1 = seq![center];
    let s2 = seq![center, center];
    let s3 = seq![center, center, center];
    let s4 = seq![center, center, center, center];
    let s5 = seq![center, center, center, center, center];
    let s6 = seq![center, center, center, center, center, center];
    let s7 = seq![center, center, center, center, center, center, center];
    assert(dedup_seq(Seq::<Coords>::empty()) =~= Seq::<Coords>::empty());
    assert(s1.drop_last() =~= Seq::<Coords>::empty());
    assert(dedup_seq(s1) =~= s1);
    assert(s1.contains(center)) by {
        assert(s1[0] == center);
    }
    assert(s2.drop_last() =~= s1 && s2.contains(center));
    assert(dedup_seq(s2) == dedup_seq(s1));
    assert(s3.drop_last() =~= s2 && s2.contains(center)) by {
        assert(s2[0] == center);
    }
    assert(dedup_seq(s3) == dedup_seq(s2));
    assert(s4.drop_last() =~= s3 && s3.contains(center)) by {
        assert(s3[0] == center);
    }
    assert(dedup_seq(s4) == dedup_seq(s3));
    assert(s5.drop_last() =~= s4 && s4.contains(center)) by {
        assert(s4[0] == center);
    }
    assert(dedup_seq(s5) == dedup_seq(s4));
    assert(s6.drop_last() =~= s5 && s5.contains(center)) by {
        assert(s5[0] == center);
    }
    assert(dedup_seq(s6) == dedup_seq(s5));
    assert(s7.drop_last() =~= s6 && s6.contains(center)) by {
        assert(s6[0] == center);
    }
    assert(dedup_seq(s7) == dedup_seq(s6));
    assert(raw.drop_last() =~= s7 && s7.contains(center)) by {
        assert(s7[0] == center);
    }
    assert(dedup_seq(raw) == dedup_seq(s7));
}

/// Push the cell at `(x, y)` unless it lies outside the non-negative
/// quadrant, in which case it is dropped.
fn push_quadrant(v: &mut Vec<Coords>, x: i64, y: i64)
    requires
        x < u32::MAX as i64,
        y < u32::MAX as i64,
    ensures
        final(v)@ == old(v)@ + maybe_pt(x as int, y as int),
{
    if x >= 0 && y >= 0 {
        v.push(Coords(x as u32, y as u32));
        assert(v@ =~= old(v)@ + maybe_pt(x as int, y as int));
    } else {
        assert(v@ =~= old(v)@ + maybe_pt(x as int, y as int));
    }
}

/// Remove every repeated coordinate, keeping first occurrences in order.
fn dedup_coords(v: &Vec<Coords>) -> (out: Vec<Coords>)
    ensures
        out@ == dedup_seq(v@),
{
    let mut out: Vec<Coords> = Vec::new();
    let mut i: usize = 0;
    while i < v.len()
        invariant
            i <= v@.len(),
            out@ == dedup_seq(v@.take(i as int)),
        decreases v@.len() - i,
    {
        proof {
            lemma_dedup_contains(v@.take(i as int), v@[i as int]);
            assert(v@.take(i as int + 1).drop_last() =~= v@.take(i as int));
            assert(v@.take(i as int + 1).last() == v@[i as int]);
        }
        if !contains_coords(&out, v[i]) {
            out.push(v[i]);
            assert(out@ =~= dedup_seq(v@.take(i as int)) + seq![v@[i as int]]);
        }
        i = i + 1;
    }
    proof {
        assert(v@.take(v@.len() as int) =~= v@);
    }
    out
}

impl Circle {
    /// Rasterize the circle of the given center and radius by midpoint
    /// stepping: the cells are exactly `circle_points(point, radius)`,
    /// deduplicated, with out-of-quadrant reflections dropped.
    #[verifier::loop_isolation(false)]
    #[verifier::rlimit(60)]
    pub fn new(point: Coords, radius: u32) -> (circle: Circle)
        requires
            point.0 + radius < u32::MAX,
            point.1 + radius < u32::MAX,
        ensures
            circle.1@ == circle_points(point, radius),
            circle.0 == spec_dims(circle.1@),
            circle.1@.no_duplicates(),
            circle.1@.len() >= 1,
            coords_bounded(circle.1@),
            forall|c: Coords| circle.1@.contains(c) <==> circle_raw(point, radius).contains(c),
    {
        let ghost cx = point.0 as int;
        let ghost cy = point.1 as int;
        let ghost raw = circle_raw(point, radius);
        let bx: i64 = point.0 as i64;
        let by: i64 = point.1 as i64;
        let mut rawv: Vec<Coords> = Vec::new();
        let mut x: i64 = radius as i64;
        let mut y: i64 = 0;
        let mut err: i128 = 0;
        while x >= y
            invariant
                rawv@ + expand_octants(cx, cy, octant_from(x as int, y as int, err as int))
                    == raw,
                -1 <= x <= radius,
                0 <= y <= radius + 1,
                err as int == (y * y + 2 * y) - (radius - x) * (x + radius - 2),
            decreases x - y + 2,
        {
            let ghost s = octant_from(x as int, y as int, err as int);
            let ghost pre = rawv@;
            let ghost xi = x as int;
            let ghost yi = y as int;
            let ghost ei = err as int;
            push_quadrant(&mut rawv, bx + x, by + y);
            push_quadrant(&mut rawv, bx + y, by + x);
            push_quadrant(&mut rawv, bx - y, by + x);
            push_quadrant(&mut rawv, bx - x, by + y);
            push_quadrant(&mut rawv, bx - x, by - y);
            push_quadrant(&mut rawv, bx - y, by - x);
            push_quadrant(&mut rawv, bx + y, by - x);
            push_quadrant(&mut rawv, bx + x, by - y);
            proof {
                assert(rawv@ =~= pre + reflections(cx, cy, xi, yi));
                let ri = radius as int;
                assert(-0x40000000000000000 <= ei <= 0x40000000000000000) by (nonlinear_arith)
                    requires
                        ei == (yi * yi + 2 * yi) - (ri - xi) * (xi + ri - 2),
                        0 <= yi <= ri + 1,
                        -1 <= xi <= ri,
                        ri < 0x100000000,
                ;
            }
            y = y + 1;
            err = err + 1 + 2 * (y as i128);
            if 2 * (err - x as i128) + 1 > 0 {
                x = x - 1;
                err = err + 1 - 2 * (x as i128);
            }
            proof {
                let ri = radius as int;
                let e1 = ei + 1 + 2 * (yi + 1);
                let cond = 2 * (e1 - xi) + 1 > 0;
                let x2 = if cond {
                    xi - 1
                } else {
                    xi
                };
                let e2 = if cond {
                    e1 + 1 - 2 * (xi - 1)
                } else {
                    e1
                };
                assert(x as int == x2 && y as int == yi + 1 && err as int == e2);
                assert(s.len() > 0 && s[0] == (xi, yi));
                assert(s.drop_first() =~= octant_from(x2, yi + 1, e2));
                assert(expand_octants(cx, cy, s) == reflections(cx, cy, xi, yi)
                    + expand_octants(cx, cy, s.drop_first()));
                assert(rawv@ + expand_octants(
                    cx,
                    cy,
                    octant_from(x as int, y as int, err as int),
                ) =~= raw);
                assert(e2 == ((yi + 1) * (yi + 1) + 2 * (yi + 1)) - (ri - x2) * (x2 + ri
                    - 2)) by (nonlinear_arith)
                    requires
                        ei == (yi * yi + 2 * yi) - (ri - xi) * (xi + ri - 2),
                        e1 == ei + 1 + 2 * (yi + 1),
                        x2 == if cond {
                            xi - 1
                        } else {
                            xi
                        },
                        e2 == if cond {
                            e1 + 1 - 2 * (xi - 1)
                        } else {
                            e1
                        },
                ;
            }
        }
        proof {
            assert(octant_from(x as int, y as int, err as int) =~= Seq::<(int, int)>::empty());
            assert(rawv@ =~= raw);
        }
        let coords = dedup_coords(&rawv);
        proof {
            lemma_dedup_no_duplicates(raw);
            lemma_circle_raw_first(point, radius);
            lemma_dedup_contains(raw, raw[0]);
            assert(coords@.len() >= 1) by {
                assert(raw.contains(raw[0]));
                assert(coords@.contains(raw[0]));
            }
            lemma_octant_bounds(radius as int, 0, 0);
            lemma_expand_bounds(cx, cy, octant_from(radius as int, 0, 0), radius as int);
            assert forall|c: Coords| coords@.contains(c) implies #[trigger] c.0 < u32::MAX
                && c.1 < u32::MAX by {
                lemma_dedup_contains(raw, c);
                let k = choose|k: int| 0 <= k < raw.len() && raw[k] == c;
                assert(raw[k].0 <= cx + radius && raw[k].1 <= cy + radius);
            }
            assert(coords_bounded(coords@)) by {
                assert forall|k: int|
                    0 <= k < coords@.len() implies #[trigger] coords@[k].0 < u32::MAX
                    && coords@[k].1 < u32::MAX by {
                    assert(coords@.contains(coords@[k]));
                }
            }
            assert forall|c: Coords| coords@.contains(c) <==> raw.contains(c) by {
                lemma_dedup_contains(raw, c);
            }
        }
        let dimensions = Dimensions::from_coords(&coords);
        Circle(dimensions, coords)
    }
}

} // verus!
