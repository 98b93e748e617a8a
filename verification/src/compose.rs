//! Compositing: flattening plottable objects into labeled layers, inferring
//! the extent of their union, and merging them onto a fully populated canvas
//! under last-write-wins precedence.

use vstd::arithmetic::div_mod::lemma_div_pos_is_pos;
use vstd::arithmetic::div_mod::lemma_fundamental_div_mod;
use vstd::arithmetic::div_mod::lemma_fundamental_div_mod_converse;
use vstd::arithmetic::div_mod::lemma_mod_bound;
use vstd::prelude::*;

use crate::circle::Circle;
use crate::geometry::Coords;
use crate::geometry::Dimensions;
use crate::geometry::Representation;
use crate::geometry::contains_coords;
use crate::geometry::coords_bounded;
use crate::geometry::lemma_max_bounds;
use crate::geometry::max_x;
use crate::geometry::max_y;
use crate::geometry::spec_dims;
use crate::line::Line;

verus! {

/// One plottable layer: a label and the cells that carry it.
#[derive(Debug)]
pub struct Layer(pub Representation, pub Vec<Coords>);

/// A grid cell together with the label it carries on a canvas.
#[derive(Debug, PartialEq, Eq, Structural, Copy, Clone)]
pub struct PlottedCoords(pub u32, pub u32, pub Representation);

/// A composited canvas: an extent and one labeled cell for every cell of
/// the extent, in scan order (top row first, left to right within a row).
#[derive(Debug)]
pub struct Canvas(pub Dimensions, pub Vec<PlottedCoords>);

/// A combined object: the extent of its layers' union, and the layers in
/// precedence order — later layers win at shared cells.
#[derive(Debug)]
pub struct CombinedObject(pub Dimensions, pub Vec<Layer>);

/// The mathematical content of one layer.
pub open spec fn layer_view(l: Layer) -> (Representation, Seq<Coords>) {
    (l.0, l.1@)
}

/// The mathematical content of a layer sequence.
pub open spec fn layers_view(ls: Seq<Layer>) -> Seq<(Representation, Seq<Coords>)> {
    ls.map_values(|l: Layer| layer_view(l))
}

/// Every coordinate of every layer, in layer order.
pub open spec fn all_coords(layers: Seq<(Representation, Seq<Coords>)>) -> Seq<Coords>
    decreases layers.len(),
{
    if layers.len() == 0 {
        Seq::empty()
    } else {
        layers[0].1 + all_coords(layers.drop_first())
    }
}

/// The label at `c` under last-write-wins precedence: the label of the last
/// layer covering `c`, or nothing when no layer does.
pub open spec fn merged_at(
    layers: Seq<(Representation, Seq<Coords>)>,
    c: Coords,
) -> Option<Representation>
    decreases layers.len(),
{
    if layers.len() == 0 {
        None
    } else if layers.last().1.contains(c) {
        Some(layers.last().0)
    } else {
        merged_at(layers.drop_last(), c)
    }
}

/// The label a canvas cell at `c` carries: the merged label, or the
/// background label when no layer covers the cell.
pub open spec fn cell_label(layers: Seq<(Representation, Seq<Coords>)>, c: Coords) -> Representation {
    match merged_at(layers, c) {
        Some(r) => r,
        None => Representation::Canvas,
    }
}

/// A plottable is well formed when its extent is inferred from the union of
/// its layers' coordinates, which is non-empty and leaves room for the
/// `+ 1` of extent inference.
pub open spec fn layers_wf(d: Dimensions, layers: Seq<(Representation, Seq<Coords>)>) -> bool {
    &&& all_coords(layers).len() > 0
    &&& coords_bounded(all_coords(layers))
    &&& d == spec_dims(all_coords(layers))
}

/// The canvas entry for linear index `i` of a `w × h` extent: scan order
/// places the cell `(i % w, h - 1 - i / w)` there, so the top row comes
/// first, each row left to right.
pub open spec fn cell_at(
    layers: Seq<(Representation, Seq<Coords>)>,
    w: int,
    h: int,
    i: int,
) -> PlottedCoords {
    let x = i % w;
    let y = h - 1 - i / w;
    PlottedCoords(x as u32, y as u32, cell_label(layers, Coords(x as u32, y as u32)))
}

/// The canvas holds exactly the extent's `width * height` cells, in scan
/// order, each carrying its merged label.
pub open spec fn canvas_matches(canvas: Canvas, layers: Seq<(Representation, Seq<Coords>)>) -> bool {
    let w = canvas.0.0 as int;
    let h = canvas.0.1 as int;
    &&& canvas.1@.len() == w * h
    &&& forall|i: int| 0 <= i < w * h ==> canvas.1@[i] == cell_at(layers, w, h, i)
}

/// A canvas whose cell list covers its extent exactly once.
pub open spec fn canvas_wf(canvas: Canvas) -> bool {
    canvas.1@.len() == canvas.0.0 as int * canvas.0.1 as int
}

/// Coordinate gathering distributes over layer concatenation.
pub proof fn lemma_all_coords_concat(
    a: Seq<(Representation, Seq<Coords>)>,
    b: Seq<(Representation, Seq<Coords>)>,
)
    ensures
        all_coords(a + b) == all_coords(a) + all_coords(b),
    decreases a.len(),
{
    if a.len() == 0 {
        assert(a + b =~= b);
        assert(all_coords(a) + all_coords(b) =~= all_coords(b));
    } else {
        lemma_all_coords_concat(a.drop_first(), b);
        assert((a + b).drop_first() =~= a.drop_first() + b);
        assert((a + b)[0] == a[0]);
        assert(all_coords(a + b) =~= all_coords(a) + all_coords(b));
    }
}

/// A single layer contributes exactly its own coordinates.
pub proof fn lemma_all_coords_single(l: (Representation, Seq<Coords>))
    ensures
        all_coords(seq![l]) == l.1,
{
    assert(seq![l].drop_first() =~= Seq::<(Representation, Seq<Coords>)>::empty());
    assert(all_coords(Seq::<(Representation, Seq<Coords>)>::empty()) =~= Seq::<Coords>::empty());
    assert(seq![l][0] == l);
    assert(all_coords(seq![l]) =~= l.1);
}

/// The merged label of a single layer: its label where it covers the cell.
pub proof fn lemma_merged_at_single(l: (Representation, Seq<Coords>), c: Coords)
    ensures
        merged_at(seq![l], c) == if l.1.contains(c) {
            Some(l.0)
        } else {
            None::<Representation>
        },
{
    assert(seq![l].drop_last() =~= Seq::<(Representation, Seq<Coords>)>::empty());
    assert(merged_at(Seq::<(Representation, Seq<Coords>)>::empty(), c) is None);
    assert(seq![l].last() == l);
}

/// Merge precedence is last-write-wins: wherever the later layers cover a
/// cell their label wins, and only elsewhere does an earlier label show
/// through — so composing `earlier + later` is not `later + earlier`.
pub proof fn lemma_merge_precedence(
    earlier: Seq<(Representation, Seq<Coords>)>,
    later: Seq<(Representation, Seq<Coords>)>,
    c: Coords,
)
    ensures
        merged_at(earlier + later, c) == match merged_at(later, c) {
            Some(r) => Some(r),
            None => merged_at(earlier, c),
        },
    decreases later.len(),
{
    if later.len() == 0 {
        assert(earlier + later =~= earlier);
    } else {
        lemma_merge_precedence(earlier, later.drop_last(), c);
        assert((earlier + later).drop_last() =~= earlier + later.drop_last());
        assert((earlier + later).last() == later.last());
    }
}

/// Canvas completeness: the canvas has exactly `width * height` entries,
/// the cell `(x, y)` of the extent stands at its one scan-order index with
/// its merged label, and at no other index.
pub proof fn lemma_canvas_complete(
    canvas: Canvas,
    layers: Seq<(Representation, Seq<Coords>)>,
    x: int,
    y: int,
)
    requires
        canvas_matches(canvas, layers),
        0 <= x < canvas.0.0 as int,
        0 <= y < canvas.0.1 as int,
    ensures
        canvas.1@.len() == canvas.0.0 as int * canvas.0.1 as int,
        ({
            let w = canvas.0.0 as int;
            let h = canvas.0.1 as int;
            let i = (h - 1 - y) * w + x;
            &&& 0 <= i < canvas.1@.len()
            &&& canvas.1@[i].0 == x
            &&& canvas.1@[i].1 == y
            &&& canvas.1@[i].2 == cell_label(layers, Coords(x as u32, y as u32))
            &&& forall|j: int|
                0 <= j < canvas.1@.len() && j != i ==> !(#[trigger] canvas.1@[j].0 == x
                    && canvas.1@[j].1 == y)
        }),
{
    let w = canvas.0.0 as int;
    let h = canvas.0.1 as int;
    let i = (h - 1 - y) * w + x;
    assert((h - 1 - y) * w + x < h * w && 0 <= (h - 1 - y) * w) by (nonlinear_arith)
        requires
            0 <= x < w,
            0 <= y < h,
    ;
    assert(h * w == w * h) by (nonlinear_arith);
    lemma_fundamental_div_mod_converse(i, w, h - 1 - y, x);
    assert(canvas.1@[i] == cell_at(layers, w, h, i));
    assert forall|j: int|
        0 <= j < canvas.1@.len() && j != i implies !(#[trigger] canvas.1@[j].0 == x
        && canvas.1@[j].1 == y) by {
        if canvas.1@[j].0 == x && canvas.1@[j].1 == y {
            assert(canvas.1@[j] == cell_at(layers, w, h, j));
            lemma_fundamental_div_mod(j, w);
            lemma_mod_bound(j, w);
            lemma_div_pos_is_pos(j, w);
            assert(j / w <= h - 1) by {
                if j / w >= h {
                    assert(w * (j / w) >= w * h) by (nonlinear_arith)
                        requires
                            j / w >= h,
                            w > 0,
                    ;
                }
            }
            assert((j % w) as u32 as int == j % w);
            assert((h - 1 - j / w) as u32 as int == h - 1 - j / w);
            assert(j % w == x);
            assert(h - 1 - j / w == y);
            assert(j == w * (h - 1 - y) + x);
            assert(w * (h - 1 - y) == (h - 1 - y) * w) by (nonlinear_arith);
        }
    }
}

/// Anything that can be plotted onto a canvas: a sequence of labeled
/// layers, later layers taking precedence, with an extent inferred from the
/// union of their coordinates.
pub trait Plottable: Sized {
    /// The object's layers, in precedence order.
    spec fn layers(&self) -> Seq<(Representation, Seq<Coords>)>;

    /// The object's extent is inferred from its layers, whose union is
    /// non-empty and bounded.
    spec fn wf(&self) -> bool;

    /// A well-formed object has a non-empty coordinate union that leaves
    /// room for extent inference.
    proof fn wf_union_bounds(&self)
        requires
            self.wf(),
        ensures
            all_coords(self.layers()).len() > 0,
            coords_bounded(all_coords(self.layers())),
    ;

    /// The canvas extent needed to plot the object.
    fn get_dimensions(&self) -> (d: Dimensions)
        requires
            self.wf(),
        ensures
            d == spec_dims(all_coords(self.layers())),
    ;

    /// Every coordinate of every layer, in layer order.
    fn get_coords(&self) -> (v: Vec<Coords>)
        ensures
            v@ == all_coords(self.layers()),
    ;

    /// The label the object gives to the cell at `coords`, later layers
    /// winning at shared cells; nothing where no layer covers the cell.
    fn get_representation_at(&self, coords: Coords) -> (r: Option<Representation>)
        ensures
            r == merged_at(self.layers(), coords),
    ;

    /// The object flattened to its layers.
    fn to_layers(&self) -> (v: Vec<Layer>)
        ensures
            layers_view(v@) == self.layers(),
    ;
}

/// A fresh vector holding the same coordinates.
fn copy_coords(v: &Vec<Coords>) -> (out: Vec<Coords>)
    ensures
        out@ == v@,
{
    let mut out: Vec<Coords> = Vec::new();
    let mut i: usize = 0;
    while i < v.len()
        invariant
            i <= v@.len(),
            out@ == v@.take(i as int),
        decreases v@.len() - i,
    {
        out.push(v[i]);
        assert(out@ =~= v@.take(i as int + 1));
        i = i + 1;
    }
    proof {
        assert(v@.take(v@.len() as int) =~= v@);
    }
    out
}

/// A fresh vector holding the same layers.
fn clone_layers(v: &Vec<Layer>) -> (out: Vec<Layer>)
    ensures
        layers_view(out@) == layers_view(v@),
{
    let mut out: Vec<Layer> = Vec::new();
    let mut i: usize = 0;
    while i < v.len()
        invariant
            i <= v@.len(),
            out@.len() == i,
            forall|j: int| 0 <= j < i ==> layer_view(#[trigger] out@[j]) == layer_view(v@[j]),
        decreases v@.len() - i,
    {
        let l = &v[i];
        out.push(Layer(l.0, copy_coords(&l.1)));
        i = i + 1;
    }
    proof {
        assert(layers_view(out@) =~= layers_view(v@));
    }
    out
}

/// Every coordinate of every layer of `layers`, in layer order.
fn gather_coords(layers: &Vec<Layer>) -> (out: Vec<Coords>)
    ensures
        out@ == all_coords(layers_view(layers@)),
{
    let ghost lv = layers_view(layers@);
    let mut out: Vec<Coords> = Vec::new();
    let mut i: usize = 0;
    proof {
        assert(lv.take(0) =~= Seq::<(Representation, Seq<Coords>)>::empty());
        assert(out@ =~= all_coords(lv.take(0)));
    }
    while i < layers.len()
        invariant
            i <= layers@.len(),
            lv == layers_view(layers@),
            out@ == all_coords(lv.take(i as int)),
        decreases layers@.len() - i,
    {
        let l = &layers[i];
        let mut c = copy_coords(&l.1);
        proof {
            lemma_all_coords_concat(lv.take(i as int), seq![lv[i as int]]);
            lemma_all_coords_single(lv[i as int]);
            assert(lv.take(i as int + 1) =~= lv.take(i as int) + seq![lv[i as int]]);
            assert(lv[i as int] == layer_view(layers@[i as int]));
        }
        out.append(&mut c);
        assert(out@ =~= all_coords(lv.take(i as int + 1)));
        i = i + 1;
    }
    proof {
        assert(lv.take(lv.len() as int) =~= lv);
    }
    out
}

/// The merged label at `c`: the label of the last layer covering `c`.
fn representation_at(layers: &Vec<Layer>, c: Coords) -> (r: Option<Representation>)
    ensures
        r == merged_at(layers_view(layers@), c),
{
    let ghost lv = layers_view(layers@);
    let mut i: usize = layers.len();
    proof {
        assert(lv.take(lv.len() as int) =~= lv);
    }
    while i > 0
        invariant
            i <= layers@.len(),
            lv == layers_view(layers@),
            merged_at(lv, c) == merged_at(lv.take(i as int), c),
        decreases i,
    {
        i = i - 1;
        proof {
            assert(lv.take(i as int + 1).drop_last() =~= lv.take(i as int));
            assert(lv.take(i as int + 1).last() == lv[i as int]);
            assert(lv[i as int] == layer_view(layers@[i as int]));
        }
        let l = &layers[i];
        if contains_coords(&l.1, c) {
            return Some(l.0);
        }
    }
    proof {
        assert(lv.take(0) =~= Seq::<(Representation, Seq<Coords>)>::empty());
    }
    None
}

/// The canvas cells for the extent `d`, in scan order, each carrying the
/// merged label of `layers` at its cell.
#[verifier::loop_isolation(false)]
fn fill_cells(layers: &Vec<Layer>, d: Dimensions) -> (cells: Vec<PlottedCoords>)
    ensures
        cells@.len() == d.0 as int * d.1 as int,
        forall|i: int|
            0 <= i < cells@.len() ==> #[trigger] cells@[i] == cell_at(
                layers_view(layers@),
                d.0 as int,
                d.1 as int,
                i,
            ),
{
    let ghost lv = layers_view(layers@);
    let w = d.0;
    let h = d.1;
    let ghost wi = w as int;
    let ghost hi = h as int;
    let mut cells: Vec<PlottedCoords> = Vec::new();
    let mut row: u32 = 0;
    while row < h
        invariant
            row <= h,
            cells@.len() == row as int * wi,
            forall|i: int|
                0 <= i < cells@.len() ==> #[trigger] cells@[i] == cell_at(lv, wi, hi, i),
        decreases h - row,
    {
        let y: u32 = h - 1 - row;
        let mut col: u32 = 0;
        while col < w
            invariant
                col <= w,
                row < h,
                y == h - 1 - row,
                cells@.len() == row as int * wi + col as int,
                forall|i: int|
                    0 <= i < cells@.len() ==> #[trigger] cells@[i] == cell_at(lv, wi, hi, i),
            decreases w - col,
        {
            let rep = representation_at(layers, Coords(col, y));
            let pc = match rep {
                Some(r) => PlottedCoords(col, y, r),
                None => PlottedCoords(col, y, Representation::Canvas),
            };
            proof {
                lemma_fundamental_div_mod_converse(
                    row as int * wi + col as int,
                    wi,
                    row as int,
                    col as int,
                );
                assert(cell_at(lv, wi, hi, row as int * wi + col as int) == pc);
            }
            cells.push(pc);
            col = col + 1;
        }
        proof {
            assert((row as int + 1) * wi == row as int * wi + wi) by (nonlinear_arith);
        }
        row = row + 1;
    }
    proof {
        assert(hi * wi == wi * hi) by (nonlinear_arith);
    }
    cells
}

impl Plottable for Line {
    /// A line is the single layer of its cells under its direction label.
    open spec fn layers(&self) -> Seq<(Representation, Seq<Coords>)> {
        seq![(self.2, self.1@)]
    }

    open spec fn wf(&self) -> bool {
        layers_wf(self.0, self.layers())
    }

    proof fn wf_union_bounds(&self) {
    }

    fn get_dimensions(&self) -> (d: Dimensions) {
        self.0
    }

    fn get_coords(&self) -> (v: Vec<Coords>) {
        proof {
            lemma_all_coords_single((self.2, self.1@));
        }
        copy_coords(&self.1)
    }

    fn get_representation_at(&self, coords: Coords) -> (r: Option<Representation>) {
        proof {
            lemma_merged_at_single((self.2, self.1@), coords);
        }
        if contains_coords(&self.1, coords) {
            Some(self.2)
        } else {
            None
        }
    }

    fn to_layers(&self) -> (v: Vec<Layer>) {
        let mut v: Vec<Layer> = Vec::new();
        v.push(Layer(self.2, copy_coords(&self.1)));
        proof {
            assert(layers_view(v@) =~= self.layers());
        }
        v
    }
}

impl Plottable for Circle {
    /// A circle is the single layer of its cells under the circle label.
    open spec fn layers(&self) -> Seq<(Representation, Seq<Coords>)> {
        seq![(Representation::Circle, self.1@)]
    }

    open spec fn wf(&self) -> bool {
        layers_wf(self.0, self.layers())
    }

    proof fn wf_union_bounds(&self) {
    }

    fn get_dimensions(&self) -> (d: Dimensions) {
        self.0
    }

    fn get_coords(&self) -> (v: Vec<Coords>) {
        proof {
            lemma_all_coords_single((Representation::Circle, self.1@));
        }
        copy_coords(&self.1)
    }

    fn get_representation_at(&self, coords: Coords) -> (r: Option<Representation>) {
        proof {
            lemma_merged_at_single((Representation::Circle, self.1@), coords);
        }
        if contains_coords(&self.1, coords) {
            Some(Representation::Circle)
        } else {
            None
        }
    }

    fn to_layers(&self) -> (v: Vec<Layer>) {
        let mut v: Vec<Layer> = Vec::new();
        v.push(Layer(Representation::Circle, copy_coords(&self.1)));
        proof {
            assert(layers_view(v@) =~= self.layers());
        }
        v
    }
}

impl Plottable for CombinedObject {
    /// A combined object is exactly its stored layers.
    open spec fn layers(&self) -> Seq<(Representation, Seq<Coords>)> {
        layers_view(self.1@)
    }

    open spec fn wf(&self) -> bool {
        layers_wf(self.0, self.layers())
    }

    proof fn wf_union_bounds(&self) {
    }

    fn get_dimensions(&self) -> (d: Dimensions) {
        self.0
    }

    fn get_coords(&self) -> (v: Vec<Coords>) {
        gather_coords(&self.1)
    }

    fn get_representation_at(&self, coords: Coords) -> (r: Option<Representation>) {
        representation_at(&self.1, coords)
    }

    fn to_layers(&self) -> (v: Vec<Layer>) {
        clone_layers(&self.1)
    }
}

/// A canvas seen as layers: one singleton layer per cell, each carrying the
/// cell's label. The cells are pairwise distinct, so any order merges to
/// the same labels.
pub open spec fn cells_as_layers(cells: Seq<PlottedCoords>) -> Seq<(Representation, Seq<Coords>)> {
    cells.map_values(|pc: PlottedCoords| (pc.2, seq![Coords(pc.0, pc.1)]))
}

/// The coordinates of a canvas's layers are exactly its cells' coordinates,
/// in cell order.
pub proof fn lemma_cells_layers_coords(cells: Seq<PlottedCoords>)
    ensures
        all_coords(cells_as_layers(cells)).len() == cells.len(),
        forall|i: int|
            0 <= i < cells.len() ==> #[trigger] all_coords(cells_as_layers(cells))[i] == Coords(
                cells[i].0,
                cells[i].1,
            ),
    decreases cells.len(),
{
    if cells.len() == 0 {
    } else {
        lemma_cells_layers_coords(cells.drop_first());
        assert(cells_as_layers(cells).drop_first() =~= cells_as_layers(cells.drop_first()));
        assert(cells_as_layers(cells)[0] == (cells[0].2, seq![Coords(cells[0].0, cells[0].1)]));
        assert forall|i: int|
            0 <= i < cells.len() implies #[trigger] all_coords(cells_as_layers(cells))[i]
            == Coords(cells[i].0, cells[i].1) by {
            if i > 0 {
                assert(cells.drop_first()[i - 1] == cells[i]);
                assert(all_coords(cells_as_layers(cells))[i] == all_coords(
                    cells_as_layers(cells.drop_first()),
                )[i - 1]);
            }
        }
    }
}

impl Plottable for Canvas {
    /// A canvas contributes one singleton layer per cell; its cells are
    /// pairwise distinct, so only its coordinate-to-label content matters.
    open spec fn layers(&self) -> Seq<(Representation, Seq<Coords>)> {
        cells_as_layers(self.1@)
    }

    open spec fn wf(&self) -> bool {
        layers_wf(self.0, self.layers())
    }

    proof fn wf_union_bounds(&self) {
    }

    fn get_dimensions(&self) -> (d: Dimensions) {
        self.0
    }

    fn get_coords(&self) -> (v: Vec<Coords>) {
        let ghost lv = self.layers();
        let mut out: Vec<Coords> = Vec::new();
        let mut i: usize = 0;
        proof {
            lemma_cells_layers_coords(self.1@);
        }
        while i < self.1.len()
            invariant
                i <= self.1@.len(),
                lv == cells_as_layers(self.1@),
                all_coords(lv).len() == self.1@.len(),
                forall|k: int|
                    0 <= k < self.1@.len() ==> #[trigger] all_coords(lv)[k] == Coords(
                        self.1@[k].0,
                        self.1@[k].1,
                    ),
                out@.len() == i,
                forall|k: int| 0 <= k < i ==> #[trigger] out@[k] == all_coords(lv)[k],
            decreases self.1@.len() - i,
        {
            let pc = &self.1[i];
            out.push(Coords(pc.0, pc.1));
            i = i + 1;
        }
        proof {
            assert(out@ =~= all_coords(lv));
        }
        out
    }

    fn get_representation_at(&self, coords: Coords) -> (r: Option<Representation>) {
        let ghost lv = self.layers();
        let mut i: usize = self.1.len();
        proof {
            assert(lv.take(lv.len() as int) =~= lv);
        }
        while i > 0
            invariant
                i <= self.1@.len(),
                lv == cells_as_layers(self.1@),
                merged_at(lv, coords) == merged_at(lv.take(i as int), coords),
            decreases i,
        {
            i = i - 1;
            proof {
                assert(lv.take(i as int + 1).drop_last() =~= lv.take(i as int));
                assert(lv.take(i as int + 1).last() == lv[i as int]);
                assert(lv[i as int] == (self.1@[i as int].2, seq![Coords(
                    self.1@[i as int].0,
                    self.1@[i as int].1,
                )]));
            }
            let pc = &self.1[i];
            if pc.0 == coords.0 && pc.1 == coords.1 {
                proof {
                    assert(lv[i as int].1[0] == coords);
                }
                return Some(pc.2);
            }
            proof {
                assert(!lv[i as int].1.contains(coords)) by {
                    if lv[i as int].1.contains(coords) {
                        let k = choose|k: int|
                            0 <= k < lv[i as int].1.len() && lv[i as int].1[k] == coords;
                        assert(lv[i as int].1[k] == Coords(self.1@[i as int].0, self.1@[i as int].1));
                    }
                }
            }
        }
        proof {
            assert(lv.take(0) =~= Seq::<(Representation, Seq<Coords>)>::empty());
        }
        None
    }

    fn to_layers(&self) -> (v: Vec<Layer>) {
        let mut out: Vec<Layer> = Vec::new();
        let mut i: usize = 0;
        while i < self.1.len()
            invariant
                i <= self.1@.len(),
                out@.len() == i,
                forall|k: int|
                    0 <= k < i ==> layer_view(#[trigger] out@[k]) == (self.1@[k].2, seq![Coords(
                        self.1@[k].0,
                        self.1@[k].1,
                    )]),
            decreases self.1@.len() - i,
        {
            let pc = &self.1[i];
            let mut cs: Vec<Coords> = Vec::new();
            cs.push(Coords(pc.0, pc.1));
            proof {
                assert(cs@ =~= seq![Coords(self.1@[i as int].0, self.1@[i as int].1)]);
            }
            out.push(Layer(pc.2, cs));
            i = i + 1;
        }
        proof {
            assert(layers_view(out@) =~= cells_as_layers(self.1@));
        }
        out
    }
}

/// A canvas that covers its extent in scan order is a well-formed
/// plottable: the extent inferred back from its cells is its own.
pub proof fn lemma_canvas_plottable_wf(
    canvas: Canvas,
    layers: Seq<(Representation, Seq<Coords>)>,
)
    requires
        canvas_matches(canvas, layers),
        canvas.0.0 >= 1,
        canvas.0.1 >= 1,
    ensures
        canvas.wf(),
{
    let w = canvas.0.0 as int;
    let h = canvas.0.1 as int;
    let cs = all_coords(cells_as_layers(canvas.1@));
    lemma_cells_layers_coords(canvas.1@);
    assert(canvas.1@.len() == w * h);
    assert(w * h >= 1) by (nonlinear_arith)
        requires
            w >= 1,
            h >= 1,
    ;
    assert forall|k: int| 0 <= k < cs.len() implies #[trigger] cs[k].0 < canvas.0.0
        && cs[k].1 < canvas.0.1 by {
        assert(canvas.1@[k] == cell_at(layers, w, h, k));
        lemma_mod_bound(k, w);
        lemma_div_pos_is_pos(k, w);
        assert(k / w <= h - 1) by {
            if k / w >= h {
                assert(w * (k / w) >= w * h) by (nonlinear_arith)
                    requires
                        k / w >= h,
                        w > 0,
                ;
                lemma_fundamental_div_mod(k, w);
            }
        }
    }
    let itop = (h - 1) * w + (w - 1);
    assert(0 <= itop < w * h && itop < canvas.1@.len()) by (nonlinear_arith)
        requires
            w >= 1,
            h >= 1,
            itop == (h - 1) * w + (w - 1),
            canvas.1@.len() == w * h,
    ;
    lemma_fundamental_div_mod_converse(itop, w, h - 1, w - 1);
    assert(canvas.1@[itop] == cell_at(layers, w, h, itop));
    assert(cs[itop] == Coords((w - 1) as u32, 0u32));
    let ibot = 0int;
    assert(canvas.1@[ibot] == cell_at(layers, w, h, ibot));
    assert(0int % w == 0 && 0int / w == 0) by {
        lemma_fundamental_div_mod_converse(0, w, 0, 0);
    }
    assert(cs[ibot] == Coords(0u32, (h - 1) as u32));
    lemma_max_bounds(cs);
    assert(max_x(cs) == w - 1) by {
        assert(cs[itop].0 == w - 1);
        let j = choose|j: int| 0 <= j < cs.len() && cs[j].0 == max_x(cs);
        assert(cs[j].0 < canvas.0.0 && cs[j].1 < canvas.0.1);
    }
    assert(max_y(cs) == h - 1) by {
        assert(cs[ibot].1 == h - 1);
        let j = choose|j: int| 0 <= j < cs.len() && cs[j].1 == max_y(cs);
        assert(cs[j].0 < canvas.0.0 && cs[j].1 < canvas.0.1);
    }
}

/// A line whose extent, cells and bound agree is a well-formed plottable.
pub proof fn lemma_line_wf(l: Line)
    requires
        l.0 == spec_dims(l.1@),
        l.1@.len() > 0,
        coords_bounded(l.1@),
    ensures
        l.wf(),
{
    lemma_all_coords_single((l.2, l.1@));
}

/// A circle whose extent, cells and bound agree is a well-formed plottable.
pub proof fn lemma_circle_wf(c: Circle)
    requires
        c.0 == spec_dims(c.1@),
        c.1@.len() > 0,
        coords_bounded(c.1@),
    ensures
        c.wf(),
{
    lemma_all_coords_single((Representation::Circle, c.1@));
}

/// Merge two plottables into one combined object: `b`'s layers follow
/// `a`'s, so `b` wins at any cell the two share, and the extent grows to
/// the union of both coordinate sets.
pub fn combine<T: Plottable, U: Plottable>(a: Box<T>, b: Box<U>) -> (c: CombinedObject)
    requires
        (*a).wf(),
        (*b).wf(),
    ensures
        c.layers() == (*a).layers() + (*b).layers(),
        c.0 == spec_dims(all_coords((*a).layers() + (*b).layers())),
        c.wf(),
{
    let mut layers = a.to_layers();
    let mut more = b.to_layers();
    let ghost la = (*a).layers();
    let ghost lb = (*b).layers();
    proof {
        (&*a).wf_union_bounds();
        (&*b).wf_union_bounds();
    }
    layers.append(&mut more);
    let mut coords = a.get_coords();
    let mut more_coords = b.get_coords();
    coords.append(&mut more_coords);
    proof {
        lemma_all_coords_concat(la, lb);
        assert(layers_view(layers@) =~= la + lb);
        assert(coords@ == all_coords(la + lb));
        assert(coords_bounded(coords@)) by {
            assert forall|k: int|
                0 <= k < coords@.len() implies #[trigger] coords@[k].0 < u32::MAX
                && coords@[k].1 < u32::MAX by {
                if k < all_coords(la).len() {
                    assert(coords@[k] == all_coords(la)[k]);
                } else {
                    assert(coords@[k] == all_coords(lb)[k - all_coords(la).len()]);
                }
            }
        }
    }
    let dimensions = Dimensions::from_coords(&coords);
    CombinedObject(dimensions, layers)
}

/// Plot one object onto a fresh canvas: infer the extent, fill every cell
/// with the background label, and overlay the object's layers in precedence
/// order.
pub fn plot<T: Plottable>(a: Box<T>) -> (canvas: Canvas)
    requires
        (*a).wf(),
    ensures
        canvas.0 == spec_dims(all_coords((*a).layers())),
        canvas_matches(canvas, (*a).layers()),
        canvas_wf(canvas),
{
    let d = a.get_dimensions();
    let layers = a.to_layers();
    let cells = fill_cells(&layers, d);
    Canvas(d, cells)
}

/// The error for a composition given no coordinates at all.
#[derive(Debug, PartialEq, Eq, Structural, Copy, Clone)]
pub struct EmptyInputError;

/// Composite an ordered sequence of layers into a canvas: the extent is
/// inferred from the union of their coordinates, every cell starts as
/// background, and later layers win at shared cells. Fails exactly when the
/// union is empty, which includes the empty sequence.
pub fn composite(inputs: Vec<Layer>) -> (r: Result<Canvas, EmptyInputError>)
    requires
        coords_bounded(all_coords(layers_view(inputs@))),
    ensures
        r is Err <==> all_coords(layers_view(inputs@)).len() == 0,
        match r {
            Ok(canvas) => canvas.0 == spec_dims(all_coords(layers_view(inputs@)))
                && canvas_matches(canvas, layers_view(inputs@)) && canvas_wf(canvas),
            Err(e) => e == EmptyInputError,
        },
{
    let coords = gather_coords(&inputs);
    if coords.len() == 0 {
        return Err(EmptyInputError);
    }
    let d = Dimensions::from_coords(&coords);
    let cells = fill_cells(&inputs, d);
    Ok(Canvas(d, cells))
}

} // verus!
