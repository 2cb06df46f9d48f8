use vstd::prelude::*;

verus! {

/// A dense matrix of `i64` entries, stored column by column in nalgebra's
/// `DMatrix`. Verus sees it through `matrix_rows` and `matrix_cells`.
#[verifier::external_body]
pub struct CellMatrix {
    m: nalgebra::DMatrix<i64>,
}

/// Number of rows of the matrix.
pub uninterp spec fn matrix_rows(m: CellMatrix) -> nat;

/// Entries of the matrix, column by column: entry `(row, col)` stands at
/// `row + col * rows`.
pub uninterp spec fn matrix_cells(m: CellMatrix) -> Seq<i64>;

impl CellMatrix {
    /// Relies on `nalgebra::DMatrix::from_element`: a `rows` by `cols` matrix
    /// whose every entry is `v`.
    #[verifier::external_body]
    fn filled(rows: usize, cols: usize, v: i64) -> (r: CellMatrix)
        requires
            rows * cols <= usize::MAX,
        ensures
            matrix_rows(r) == rows,
            matrix_cells(r) == Seq::new((rows * cols) as nat, |k: int| v),
    {
        CellMatrix { m: nalgebra::DMatrix::from_element(rows, cols, v) }
    }

    /// Relies on `Index<(usize, usize)>` of nalgebra's `Matrix`: the entry at
    /// `(row, col)`, which exists when both are below the matrix's shape.
    #[verifier::external_body]
    fn get(&self, row: usize, col: usize) -> (r: i64)
        requires
            row < matrix_rows(*self),
            row + col * matrix_rows(*self) < matrix_cells(*self).len(),
        ensures
            r == matrix_cells(*self)[row + col * matrix_rows(*self)],
    {
        self.m[(row, col)]
    }

    /// Relies on `IndexMut<(usize, usize)>` of nalgebra's `Matrix`: replaces the
    /// entry at `(row, col)` and leaves the shape and every other entry alone.
    #[verifier::external_body]
    fn set(&mut self, row: usize, col: usize, v: i64)
        requires
            row < matrix_rows(*old(self)),
            row + col * matrix_rows(*old(self)) < matrix_cells(*old(self)).len(),
        ensures
            matrix_rows(*final(self)) == matrix_rows(*old(self)),
            matrix_cells(*final(self)) == matrix_cells(*old(self)).update(
                row + col * matrix_rows(*old(self)),
                v,
            ),
    {
        self.m[(row, col)] = v;
    }
}

/// Position of the sample `(x, y)` in a grid of the given width.
pub open spec fn pixel(x: int, y: int, width: int) -> int {
    x + y * width
}

/// A sample inside the grid has its position inside the grid.
pub proof fn lemma_pixel_in_grid(x: int, y: int, width: int, height: int)
    requires
        0 <= x < width,
        0 <= y < height,
    ensures
        0 <= pixel(x, y, width) < width * height,
{
    assert(0 <= x + y * width < width * height) by (nonlinear_arith)
        requires
            0 <= x < width,
            0 <= y < height,
    ;
}

/// What a stored entry says: `-1` marks a sample with no known escape.
pub open spec fn entry_view(v: i64) -> Option<nat> {
    if v < 0 {
        None
    } else {
        Some(v as nat)
    }
}

/// For every sample of a `width` by `height` grid, the smallest iteration at
/// which it is known to escape, if any.
pub struct FrameCache {
    cells: CellMatrix,
    width: u32,
    height: u32,
}

impl View for FrameCache {
    type V = Seq<Option<nat>>;

    closed spec fn view(&self) -> Seq<Option<nat>> {
        matrix_cells(self.cells).map_values(|v: i64| entry_view(v))
    }
}

impl FrameCache {
    pub closed spec fn width_spec(&self) -> nat {
        self.width as nat
    }

    pub closed spec fn height_spec(&self) -> nat {
        self.height as nat
    }

    /// The matrix has one entry per sample, each `-1` or a `u32` iteration.
    pub closed spec fn wf(&self) -> bool {
        &&& matrix_rows(self.cells) == self.width
        &&& matrix_cells(self.cells).len() == self.width * self.height
        &&& self.width * self.height <= usize::MAX
        &&& forall|k: int|
            0 <= k < matrix_cells(self.cells).len() ==> -1 <= #[trigger] matrix_cells(
                self.cells,
            )[k] <= u32::MAX
    }

    /// An empty cache for a `width` by `height` grid.
    pub fn new(width: u32, height: u32) -> (r: FrameCache)
        requires
            width * height <= usize::MAX,
        ensures
            r.wf(),
            r.width_spec() == width,
            r.height_spec() == height,
            r@ == Seq::new((width * height) as nat, |k: int| None::<nat>),
    {
        let cells = CellMatrix::filled(width as usize, height as usize, -1);
        let r = FrameCache { cells, width, height };
        assert(r@ =~= Seq::new((width * height) as nat, |k: int| None::<nat>));
        r
    }

    pub fn width(&self) -> (r: u32)
        ensures
            r == self.width_spec(),
    {
        self.width
    }

    pub fn height(&self) -> (r: u32)
        ensures
            r == self.height_spec(),
    {
        self.height
    }

    /// A well-formed cache has one entry per sample.
    pub proof fn lemma_len(&self)
        requires
            self.wf(),
        ensures
            self@.len() == self.width_spec() * self.height_spec(),
            self.width_spec() * self.height_spec() <= usize::MAX,
    {
    }

    /// The escape iteration stored for the sample `(x, y)`, if any.
    pub fn lookup(&self, x: u32, y: u32) -> (r: Option<u32>)
        requires
            self.wf(),
            x < self.width_spec(),
            y < self.height_spec(),
        ensures
            r matches Some(v) ==> self@[pixel(x as int, y as int, self.width_spec() as int)]
                == Some(v as nat),
            r is None ==> self@[pixel(x as int, y as int, self.width_spec() as int)] is None,
    {
        proof {
            lemma_pixel_in_grid(x as int, y as int, self.width as int, self.height as int);
        }
        let v = self.cells.get(x as usize, y as usize);
        if v < 0 {
            None
        } else {
            Some(v as u32)
        }
    }

    /// The stored escape iteration of `(x, y)` when it is below `cap`. A stored
    /// value at or above `cap` is not trusted for that cap and counts as a miss.
    pub fn hit(&self, x: u32, y: u32, cap: u32) -> (r: Option<u32>)
        requires
            self.wf(),
            x < self.width_spec(),
            y < self.height_spec(),
        ensures
            r == valid_hit(self@[pixel(x as int, y as int, self.width_spec() as int)], cap as nat),
    {
        match self.lookup(x, y) {
            Some(v) => if v < cap {
                Some(v)
            } else {
                None
            },
            None => None,
        }
    }

    /// Records that `(x, y)` escapes at iteration `n`. A sample that already
    /// has an entry keeps it: entries are never overwritten.
    pub fn record(&mut self, x: u32, y: u32, n: u32)
        requires
            old(self).wf(),
            x < old(self).width_spec(),
            y < old(self).height_spec(),
        ensures
            final(self).wf(),
            final(self).width_spec() == old(self).width_spec(),
            final(self).height_spec() == old(self).height_spec(),
            final(self)@ == old(self)@.update(
                pixel(x as int, y as int, old(self).width_spec() as int),
                recorded(old(self)@[pixel(x as int, y as int, old(self).width_spec() as int)], n as nat),
            ),
    {
        proof {
            lemma_pixel_in_grid(x as int, y as int, self.width as int, self.height as int);
        }
        let v = self.cells.get(x as usize, y as usize);
        if v < 0 {
            self.cells.set(x as usize, y as usize, n as i64);
        }
        assert(self@ =~= old(self)@.update(
            pixel(x as int, y as int, old(self).width_spec() as int),
            recorded(old(self)@[pixel(x as int, y as int, old(self).width_spec() as int)], n as nat),
        ));
    }
}

/// A stored entry, trusted only when it lies below the cap.
pub open spec fn valid_hit(entry: Option<nat>, cap: nat) -> Option<u32> {
    match entry {
        Some(v) => if v < cap && v <= u32::MAX {
            Some(v as u32)
        } else {
            None
        },
        None => None,
    }
}

/// The entry after recording an escape at `n`: an existing entry is kept.
pub open spec fn recorded(entry: Option<nat>, n: nat) -> Option<nat> {
    match entry {
        Some(v) => Some(v),
        None => Some(n),
    }
}

}
