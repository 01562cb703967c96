//! Rectangular grids backed by ndarray's `Array2`, seen by the proofs as
//! row-major sequences: the value at column `x`, row `y` of a grid with
//! `width` columns sits at index `y * width + x`.
use vstd::prelude::*;
use ndarray::Array2;

verus! {

/// Cell classification codes of a room, one byte per cell.
#[verifier::external_body]
#[derive(Debug)]
pub struct CellGrid {
    cells: Array2<u8>,
}

/// The codes that a `CellGrid` holds, in row-major order.
pub uninterp spec fn cell_codes(g: CellGrid) -> Seq<u8>;

/// The number of columns and of rows of a `CellGrid`.
pub uninterp spec fn cell_shape(g: CellGrid) -> (usize, usize);

/// Per-cell flags of a room (whether each cell still needs cleaning).
#[verifier::external_body]
#[derive(Debug)]
pub struct FlagGrid {
    flags: Array2<bool>,
}

/// The flags that a `FlagGrid` holds, in row-major order.
pub uninterp spec fn flag_values(g: FlagGrid) -> Seq<bool>;

/// The number of columns and of rows of a `FlagGrid`.
pub uninterp spec fn flag_shape(g: FlagGrid) -> (usize, usize);

/// Dimensions that ndarray can allocate: the element count fits in `isize`.
pub open spec fn allocatable(width: usize, height: usize) -> bool {
    width <= isize::MAX && height <= isize::MAX && width * height <= isize::MAX
}

pub open spec fn flat_index(x: int, y: int, width: int) -> int {
    y * width + x
}

/// A cell inside a `width` × `height` grid has a flat index below `width * height`.
pub proof fn lemma_flat_index_bound(x: int, y: int, width: int, height: int)
    requires
        0 <= x < width,
        0 <= y < height,
    ensures
        0 <= flat_index(x, y, width) < width * height,
        flat_index(x, y, width) + 1 <= width * height,
{
    assert(0 <= y * width) by (nonlinear_arith)
        requires 0 <= y, 0 <= width;
    assert(y * width + x < width * height) by (nonlinear_arith)
        requires 0 <= x < width, 0 <= y < height;
}

/// The flat index of a cell determines its column and row.
pub proof fn lemma_flat_index_inverse(x: int, y: int, width: int)
    requires
        0 <= x < width,
        0 <= y,
    ensures
        flat_index(x, y, width) % width == x,
        flat_index(x, y, width) / width == y,
{
    vstd::arithmetic::div_mod::lemma_fundamental_div_mod_converse(y * width + x, width, y, x);
}

/// Relies on ndarray's `Array2::zeros`: a `height` × `width` array of zeros,
/// which panics only when the element count overflows `isize`.
#[verifier::external_body]
fn zeroed_codes(width: usize, height: usize) -> (g: CellGrid)
    requires
        allocatable(width, height),
    ensures
        cell_shape(g) == (width, height),
        cell_codes(g) == Seq::new((width * height) as nat, |i: int| 0u8),
{
    CellGrid { cells: Array2::zeros((height, width)) }
}

/// Relies on ndarray's `dim`, which gives (rows, columns).
#[verifier::external_body]
fn code_dims(g: &CellGrid) -> (r: (usize, usize))
    ensures
        r == cell_shape(*g),
{
    let (rows, cols) = g.cells.dim();
    (cols, rows)
}

/// Relies on ndarray's indexing `a[[y, x]]`, in bounds.
#[verifier::external_body]
fn read_code(g: &CellGrid, x: usize, y: usize) -> (r: u8)
    requires
        g.wf(),
        x < cell_shape(*g).0,
        y < cell_shape(*g).1,
    ensures
        r == cell_codes(*g)[flat_index(x as int, y as int, cell_shape(*g).0 as int)],
{
    g.cells[[y, x]]
}

/// Relies on ndarray's mutable indexing `a[[y, x]] = v`, in bounds.
#[verifier::external_body]
fn write_code(g: &mut CellGrid, x: usize, y: usize, v: u8)
    requires
        old(g).wf(),
        x < cell_shape(*old(g)).0,
        y < cell_shape(*old(g)).1,
    ensures
        cell_shape(*final(g)) == cell_shape(*old(g)),
        cell_codes(*final(g)) == cell_codes(*old(g)).update(
            flat_index(x as int, y as int, cell_shape(*old(g)).0 as int),
            v,
        ),
{
    g.cells[[y, x]] = v;
}

/// Relies on ndarray's `Array2::from_elem`: a `height` × `width` array holding
/// `v` everywhere, which panics only when the element count overflows `isize`.
#[verifier::external_body]
fn filled_flags(width: usize, height: usize, v: bool) -> (g: FlagGrid)
    requires
        allocatable(width, height),
    ensures
        flag_shape(g) == (width, height),
        flag_values(g) == Seq::new((width * height) as nat, |i: int| v),
{
    FlagGrid { flags: Array2::from_elem((height, width), v) }
}

/// Relies on ndarray's indexing `a[[y, x]]`, in bounds.
#[verifier::external_body]
fn read_flag(g: &FlagGrid, x: usize, y: usize) -> (r: bool)
    requires
        g.wf(),
        x < flag_shape(*g).0,
        y < flag_shape(*g).1,
    ensures
        r == flag_values(*g)[flat_index(x as int, y as int, flag_shape(*g).0 as int)],
{
    g.flags[[y, x]]
}

/// Relies on ndarray's mutable indexing `a[[y, x]] = v`, in bounds.
#[verifier::external_body]
fn write_flag(g: &mut FlagGrid, x: usize, y: usize, v: bool)
    requires
        old(g).wf(),
        x < flag_shape(*old(g)).0,
        y < flag_shape(*old(g)).1,
    ensures
        flag_shape(*final(g)) == flag_shape(*old(g)),
        flag_values(*final(g)) == flag_values(*old(g)).update(
            flat_index(x as int, y as int, flag_shape(*old(g)).0 as int),
            v,
        ),
{
    g.flags[[y, x]] = v;
}

/// Relies on ndarray's `fill`: every element becomes `v`, the shape stays.
#[verifier::external_body]
fn fill_flags(g: &mut FlagGrid, v: bool)
    ensures
        flag_shape(*final(g)) == flag_shape(*old(g)),
        flag_values(*final(g)) == Seq::new(flag_values(*old(g)).len(), |i: int| v),
{
    g.flags.fill(v);
}

impl CellGrid {
    pub open spec fn width_spec(&self) -> usize {
        cell_shape(*self).0
    }

    pub open spec fn height_spec(&self) -> usize {
        cell_shape(*self).1
    }

    pub open spec fn codes(&self) -> Seq<u8> {
        cell_codes(*self)
    }

    /// The code of the cell at column `x`, row `y`.
    pub open spec fn code(&self, x: int, y: int) -> u8 {
        self.codes()[flat_index(x, y, self.width_spec() as int)]
    }

    pub open spec fn wf(&self) -> bool {
        &&& allocatable(self.width_spec(), self.height_spec())
        &&& self.codes().len() == self.width_spec() * self.height_spec()
    }

    /// A grid of `width` columns and `height` rows, every code 0.
    pub fn new(width: usize, height: usize) -> (g: CellGrid)
        requires
            allocatable(width, height),
        ensures
            g.wf(),
            g.width_spec() == width,
            g.height_spec() == height,
            forall|x: int, y: int| 0 <= x < width && 0 <= y < height ==> g.code(x, y) == 0,
    {
        let g = zeroed_codes(width, height);
        assert forall|x: int, y: int| 0 <= x < width && 0 <= y < height implies g.code(x, y)
            == 0 by {
            lemma_flat_index_bound(x, y, width as int, height as int);
        }
        g
    }

    pub fn width(&self) -> (r: usize)
        ensures
            r == self.width_spec(),
    {
        code_dims(self).0
    }

    pub fn height(&self) -> (r: usize)
        ensures
            r == self.height_spec(),
    {
        code_dims(self).1
    }

    /// The code at column `x`, row `y`, or `None` outside the grid.
    pub fn get(&self, x: usize, y: usize) -> (r: Option<u8>)
        requires
            self.wf(),
        ensures
            x < self.width_spec() && y < self.height_spec() ==> r == Some(self.code(x as int, y as int)),
            !(x < self.width_spec() && y < self.height_spec()) ==> r.is_none(),
    {
        let (w, h) = code_dims(self);
        if x < w && y < h {
            Some(read_code(self, x, y))
        } else {
            None
        }
    }

    /// Sets the code at column `x`, row `y`; returns false, changing nothing,
    /// outside the grid.
    pub fn set(&mut self, x: usize, y: usize, code: u8) -> (r: bool)
        requires
            old(self).wf(),
        ensures
            final(self).wf(),
            r == (x < old(self).width_spec() && y < old(self).height_spec()),
            cell_shape(*final(self)) == cell_shape(*old(self)),
            r ==> final(self).codes() == old(self).codes().update(
                flat_index(x as int, y as int, old(self).width_spec() as int),
                code,
            ),
            !r ==> final(self).codes() == old(self).codes(),
    {
        let (w, h) = code_dims(self);
        if x < w && y < h {
            proof {
                lemma_flat_index_bound(x as int, y as int, w as int, h as int);
            }
            write_code(self, x, y, code);
            true
        } else {
            false
        }
    }
}

impl FlagGrid {
    pub open spec fn width_spec(&self) -> usize {
        flag_shape(*self).0
    }

    pub open spec fn height_spec(&self) -> usize {
        flag_shape(*self).1
    }

    pub open spec fn values(&self) -> Seq<bool> {
        flag_values(*self)
    }

    /// The flag of the cell at column `x`, row `y`.
    pub open spec fn flag(&self, x: int, y: int) -> bool {
        self.values()[flat_index(x, y, self.width_spec() as int)]
    }

    pub open spec fn wf(&self) -> bool {
        &&& allocatable(self.width_spec(), self.height_spec())
        &&& self.values().len() == self.width_spec() * self.height_spec()
    }

    /// A grid of `width` columns and `height` rows holding `v` everywhere.
    pub fn new(width: usize, height: usize, v: bool) -> (g: FlagGrid)
        requires
            allocatable(width, height),
        ensures
            g.wf(),
            g.width_spec() == width,
            g.height_spec() == height,
            g.values() == Seq::new((width * height) as nat, |i: int| v),
    {
        filled_flags(width, height, v)
    }

    /// The flag at column `x`, row `y`.
    pub fn get(&self, x: usize, y: usize) -> (r: bool)
        requires
            self.wf(),
            x < self.width_spec(),
            y < self.height_spec(),
        ensures
            r == self.flag(x as int, y as int),
    {
        read_flag(self, x, y)
    }

    /// Sets the flag at column `x`, row `y`.
    pub fn set(&mut self, x: usize, y: usize, v: bool)
        requires
            old(self).wf(),
            x < old(self).width_spec(),
            y < old(self).height_spec(),
        ensures
            final(self).wf(),
            flag_shape(*final(self)) == flag_shape(*old(self)),
            final(self).values() == old(self).values().update(
                flat_index(x as int, y as int, old(self).width_spec() as int),
                v,
            ),
    {
        proof {
            lemma_flat_index_bound(x as int, y as int, self.width_spec() as int, self.height_spec() as int);
        }
        write_flag(self, x, y, v);
    }

    /// Sets every flag to `v`.
    pub fn fill(&mut self, v: bool)
        requires
            old(self).wf(),
        ensures
            final(self).wf(),
            flag_shape(*final(self)) == flag_shape(*old(self)),
            final(self).values() == Seq::new(old(self).values().len(), |i: int| v),
    {
        fill_flags(self, v);
    }
}

} // verus!
