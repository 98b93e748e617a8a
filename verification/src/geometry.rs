//! Value types for grid coordinates and bounding extents, and the inference
//! of the minimal extent that contains a set of coordinates.

use vstd::prelude::*;

verus! {

/// The closed set of labels a canvas cell can carry: the background fill
/// (`Canvas`), the four line directions, and `Circle`.
#[derive(Debug, PartialEq, Eq, Structural, Copy, Clone)]
pub enum Representation {
    Canvas,
    VerticalLine,
    HorizontalLine,
    DiagonalLineLeftToRight,
    DiagonalLineRightToLeft,
    Circle,
}

/// A cell address on the non-negative integer grid; `x` grows rightward and
/// `y` grows upward.
#[derive(Debug, PartialEq, Eq, Structural, Copy, Clone)]
pub struct Coords(pub u32, pub u32);

/// A width and a height, in grid cells: the minimal bounding box of a
/// coordinate set has width `max(x) + 1` and height `max(y) + 1`.
#[derive(Debug, PartialEq, Eq, Structural, Copy, Clone)]
pub struct Dimensions(pub u32, pub u32);

/// The largest x among the coordinates, or -1 for the empty sequence.
pub open spec fn max_x(s: Seq<Coords>) -> int
    decreases s.len(),
{
    if s.len() == 0 {
        -1
    } else if s.last().0 as int >= max_x(s.drop_last()) {
        s.last().0 as int
    } else {
        max_x(s.drop_last())
    }
}

/// The largest y among the coordinates, or -1 for the empty sequence.
pub open spec fn max_y(s: Seq<Coords>) -> int
    decreases s.len(),
{
    if s.len() == 0 {
        -1
    } else if s.last().1 as int >= max_y(s.drop_last()) {
        s.last().1 as int
    } else {
        max_y(s.drop_last())
    }
}

/// The minimal extent containing every coordinate of `s`.
pub open spec fn spec_dims(s: Seq<Coords>) -> Dimensions {
    Dimensions((max_x(s) + 1) as u32, (max_y(s) + 1) as u32)
}

/// Every coordinate leaves room for the `+ 1` of extent inference.
pub open spec fn coords_bounded(s: Seq<Coords>) -> bool {
    forall|i: int| 0 <= i < s.len() ==> s[i].0 < u32::MAX && s[i].1 < u32::MAX
}

/// `max_x` and `max_y` bound every element, and each is attained by one.
pub proof fn lemma_max_bounds(s: Seq<Coords>)
    requires
        s.len() > 0,
    ensures
        forall|i: int| 0 <= i < s.len() ==> #[trigger] s[i].0 <= max_x(s),
        forall|i: int| 0 <= i < s.len() ==> #[trigger] s[i].1 <= max_y(s),
        exists|i: int| 0 <= i < s.len() && s[i].0 == max_x(s),
        exists|j: int| 0 <= j < s.len() && s[j].1 == max_y(s),
    decreases s.len(),
{
    if s.len() == 1 {
        assert(s[0] == s.last());
    } else {
        lemma_max_bounds(s.drop_last());
        assert forall|i: int| 0 <= i < s.len() implies #[trigger] s[i].0 <= max_x(s) by {
            if i < s.len() - 1 {
                assert(s[i] == s.drop_last()[i]);
            }
        }
        assert forall|i: int| 0 <= i < s.len() implies #[trigger] s[i].1 <= max_y(s) by {
            if i < s.len() - 1 {
                assert(s[i] == s.drop_last()[i]);
            }
        }
        if max_x(s) != s.last().0 as int {
            let i = choose|i: int| 0 <= i < s.drop_last().len() && s.drop_last()[i].0 == max_x(
                s.drop_last(),
            );
            assert(s[i].0 == max_x(s));
        }
        if max_y(s) != s.last().1 as int {
            let j = choose|j: int| 0 <= j < s.drop_last().len() && s.drop_last()[j].1 == max_y(
                s.drop_last(),
            );
            assert(s[j].1 == max_y(s));
        }
    }
}

impl Coords {
    /// Every cell of an extent, in index order: cell `k` is
    /// `(k mod width, k div width)`, so the rows come bottom-up.
    pub fn from_dimensions(dimensions: Dimensions) -> (v: Vec<Coords>)
        requires
            dimensions.0 * dimensions.1 <= u32::MAX,
        ensures
            v@.len() == dimensions.0 * dimensions.1,
            forall|k: int|
                0 <= k < v@.len() ==> #[trigger] v@[k] == Coords(
                    (k % (dimensions.0 as int)) as u32,
                    (k / (dimensions.0 as int)) as u32,
                ),
    {
        let n: u32 = dimensions.0 * dimensions.1;
        let mut v: Vec<Coords> = Vec::new();
        let mut i: u32 = 0;
        while i < n
            invariant
                i <= n,
                n == dimensions.0 * dimensions.1,
                v@.len() == i,
                forall|k: int|
                    0 <= k < i ==> #[trigger] v@[k] == Coords(
                        (k % (dimensions.0 as int)) as u32,
                        (k / (dimensions.0 as int)) as u32,
                    ),
            decreases n - i,
        {
            assert(dimensions.0 > 0) by {
                if dimensions.0 == 0 {
                    assert(n == 0);
                }
            }
            v.push(Coords(i % dimensions.0, i / dimensions.0));
            i = i + 1;
        }
        v
    }
}

/// Whether `c` occurs among the coordinates of `v`.
pub fn contains_coords(v: &Vec<Coords>, c: Coords) -> (r: bool)
    ensures
        r == v@.contains(c),
{
    let mut i: usize = 0;
    while i < v.len()
        invariant
            i <= v@.len(),
            forall|j: int| 0 <= j < i ==> v@[j] != c,
        decreases v@.len() - i,
    {
        if v[i] == c {
            assert(v@[i as int] == c);
            return true;
        }
        i = i + 1;
    }
    false
}

impl Dimensions {
    /// The largest x (when `pick_x` is set) or the largest y among the
    /// coordinates.
    pub fn get_max_coord_from_coords(coords: &Vec<Coords>, pick_x: bool) -> (m: u32)
        requires
            coords@.len() > 0,
        ensures
            m as int == if pick_x {
                max_x(coords@)
            } else {
                max_y(coords@)
            },
    {
        let first = coords[0];
        let mut m: u32 = if pick_x {
            first.0
        } else {
            first.1
        };
        let mut i: usize = 1;
        proof {
            assert(max_x(Seq::<Coords>::empty()) == -1);
            assert(max_y(Seq::<Coords>::empty()) == -1);
            assert(coords@.take(1).drop_last() =~= Seq::<Coords>::empty());
            assert(coords@.take(1).last() == coords@[0]);
            assert(max_x(coords@.take(1)) == coords@[0].0 as int);
            assert(max_y(coords@.take(1)) == coords@[0].1 as int);
        }
        while i < coords.len()
            invariant
                1 <= i <= coords@.len(),
                m as int == if pick_x {
                    max_x(coords@.take(i as int))
                } else {
                    max_y(coords@.take(i as int))
                },
            decreases coords@.len() - i,
        {
            let c = coords[i];
            let cur = if pick_x {
                c.0
            } else {
                c.1
            };
            assert(coords@.take(i + 1).drop_last() =~= coords@.take(i as int));
            assert(coords@.take(i + 1).last() == coords@[i as int]);
            if cur > m {
                m = cur;
            }
            i = i + 1;
        }
        assert(coords@.take(coords@.len() as int) =~= coords@);
        m
    }

    /// The minimal extent containing every coordinate: width `max(x) + 1`,
    /// height `max(y) + 1`.
    pub fn from_coords(coords: &Vec<Coords>) -> (d: Dimensions)
        requires
            coords@.len() > 0,
            coords_bounded(coords@),
        ensures
            d == spec_dims(coords@),
    {
        let x = Dimensions::get_max_coord_from_coords(coords, true);
        let y = Dimensions::get_max_coord_from_coords(coords, false);
        proof {
            lemma_max_bounds(coords@);
        }
        Dimensions(x + 1, y + 1)
    }
}

} // verus!
