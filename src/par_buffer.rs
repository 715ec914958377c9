use vstd::prelude::*;

verus! {

/// A `rows` by `cols` matrix of cells, stored row-major. Cell `(x, y)`, in
/// column `x` and row `y`, sits at position `y * cols + x`, so each position
/// names exactly one cell; workers that split the positions among themselves
/// therefore never write the same cell.
pub struct ParBuffer<C> {
    rows: usize,
    cols: usize,
    data: Vec<C>,
}

impl<C: Copy> ParBuffer<C> {
    pub closed spec fn spec_rows(&self) -> nat {
        self.rows as nat
    }

    pub closed spec fn spec_cols(&self) -> nat {
        self.cols as nat
    }

    /// The cells in row-major order.
    pub closed spec fn view(&self) -> Seq<C> {
        self.data@
    }

    pub open spec fn wf(&self) -> bool {
        self@.len() == self.spec_rows() * self.spec_cols()
    }

    /// A buffer with every cell set to `fill`.
    pub fn new(rows: usize, cols: usize, fill: C) -> (r: ParBuffer<C>)
        requires
            rows * cols <= usize::MAX,
        ensures
            r.wf(),
            r.spec_rows() == rows,
            r.spec_cols() == cols,
            r@ == Seq::new((rows * cols) as nat, |k: int| fill),
    {
        let n = rows * cols;
        let mut data: Vec<C> = Vec::new();
        let mut i: usize = 0;
        while i < n
            invariant
                i <= n,
                data@ == Seq::new(i as nat, |k: int| fill),
            decreases n - i,
        {
            data.push(fill);
            i = i + 1;
            assert(data@ =~= Seq::new(i as nat, |k: int| fill));
        }
        ParBuffer { rows, cols, data }
    }

    /// A buffer over cells already laid out row-major.
    pub fn from_cells(rows: usize, cols: usize, data: Vec<C>) -> (r: ParBuffer<C>)
        requires
            data.len() == rows * cols,
        ensures
            r.wf(),
            r.spec_rows() == rows,
            r.spec_cols() == cols,
            r@ == data@,
    {
        ParBuffer { rows, cols, data }
    }

    pub fn rows(&self) -> (r: usize)
        ensures
            r == self.spec_rows(),
    {
        self.rows
    }

    pub fn cols(&self) -> (r: usize)
        ensures
            r == self.spec_cols(),
    {
        self.cols
    }

    /// The cell at position `i`: column `i % cols`, row `i / cols`.
    pub fn coords(&self, i: usize) -> (r: (usize, usize))
        requires
            self.wf(),
            i < self@.len(),
        ensures
            r.0 == (i as int) % (self.spec_cols() as int),
            r.1 == (i as int) / (self.spec_cols() as int),
            r.0 < self.spec_cols(),
            r.1 < self.spec_rows(),
            r.1 * self.spec_cols() + r.0 == i,
    {
        let cols = self.cols;
        let rows = self.rows;
        proof {
            assert(cols > 0) by (nonlinear_arith)
                requires
                    i < rows * cols,
                    rows >= 0,
            ;
            vstd::arithmetic::div_mod::lemma_fundamental_div_mod(i as int, cols as int);
            vstd::arithmetic::div_mod::lemma_div_pos_is_pos(i as int, cols as int);
            assert((i as int) / (cols as int) < rows) by (nonlinear_arith)
                requires
                    i < rows * cols,
                    cols > 0,
                    i == cols * ((i as int) / (cols as int)) + (i as int) % (cols as int),
                    (i as int) % (cols as int) >= 0,
            ;
            vstd::arithmetic::div_mod::lemma_mod_pos_bound(i as int, cols as int);
        }
        (i % cols, i / cols)
    }

    /// The position of cell `(x, y)`.
    pub fn index(&self, x: usize, y: usize) -> (r: usize)
        requires
            self.wf(),
            x < self.spec_cols(),
            y < self.spec_rows(),
        ensures
            r == y * self.spec_cols() + x,
            r < self@.len(),
    {
        proof {
            let rows = self.spec_rows();
            let cols = self.spec_cols();
            assert(self.data.len() == self@.len());
            assert(y * cols + x < rows * cols) by (nonlinear_arith)
                requires
                    x < cols,
                    y < rows,
            ;
        }
        y * self.cols + x
    }

    /// The cell `(x, y)`.
    pub fn get(&self, x: usize, y: usize) -> (r: C)
        requires
            self.wf(),
            x < self.spec_cols(),
            y < self.spec_rows(),
        ensures
            r == self@[y * self.spec_cols() + x],
    {
        let i = self.index(x, y);
        self.data[i]
    }

    /// Sets the cell `(x, y)` to `c`, leaving the others as they were.
    pub fn set(&mut self, x: usize, y: usize, c: C)
        requires
            old(self).wf(),
            x < old(self).spec_cols(),
            y < old(self).spec_rows(),
        ensures
            final(self).wf(),
            final(self).spec_rows() == old(self).spec_rows(),
            final(self).spec_cols() == old(self).spec_cols(),
            final(self)@ == old(self)@.update(y * old(self).spec_cols() + x, c),
    {
        let i = self.index(x, y);
        self.data.set(i, c);
    }
}

} // verus!
