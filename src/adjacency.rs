use vstd::prelude::*;

verus! {

/// A symmetric boolean matrix kept as its lower triangle in one array.
#[derive(Debug)]
pub struct AdjacencyMatrix {
    array: Vec<bool>,
    dimension: usize,
}

/// `0 + 1 + ... + n`.
pub open spec fn triangle(n: nat) -> nat {
    n * (n + 1) / 2
}

/// Where the cell of `row` and `column` lies in the array.
pub open spec fn cell_index(row: nat, column: nat) -> nat {
    if row < column {
        triangle(column) + row
    } else if row == 0 {
        column
    } else {
        triangle(row) + column
    }
}

/// The cell index of `row` and `column` fits in a `usize`.
pub open spec fn index_fits(row: nat, column: nat) -> bool {
    &&& row * (row + 1) <= usize::MAX
    &&& column * (column + 1) <= usize::MAX
    &&& cell_index(row, column) <= usize::MAX
}

impl AdjacencyMatrix {
    /// The cells, in array order.
    pub closed spec fn cells(&self) -> Seq<bool> {
        self.array@
    }

    /// The recorded size: the number of cells it was made with.
    pub closed spec fn size(&self) -> nat {
        self.dimension as nat
    }

    /// A matrix for `size` nodes: `triangle(size)` cells, all unset.
    pub fn with_dimension(size: usize) -> (r: Self)
        requires
            size * (size + 1) <= usize::MAX,
        ensures
            r.cells() == Seq::new(triangle(size as nat), |i: int| false),
            r.size() == triangle(size as nat),
    {
        if size > 0 {
            assert(size + 1 <= size * (size + 1)) by (nonlinear_arith)
                requires
                    size >= 1,
            ;
            let size = size * (size + 1) / 2;
            let mut array: Vec<bool> = Vec::new();
            let mut i: usize = 0;
            while i < size
                invariant
                    i <= size,
                    array@ == Seq::new(i as nat, |k: int| false),
                decreases size - i,
            {
                array.push(false);
                i = i + 1;
                assert(array@ =~= Seq::new(i as nat, |k: int| false));
            }
            Self { array, dimension: size }
        } else {
            let array: Vec<bool> = Vec::new();
            assert(array@ =~= Seq::new(triangle(0), |i: int| false));
            Self { array, dimension: size }
        }
    }

    pub fn len(&self) -> (r: usize)
        ensures
            r == self.cells().len(),
    {
        self.array.len()
    }

    pub fn is_empty(&self) -> (r: bool)
        ensures
            r == (self.cells().len() == 0),
    {
        self.array.len() == 0
    }

    /// The cell at `rows_index` and `columns_index`, none outside the array.
    pub fn get_value(&self, rows_index: usize, columns_index: usize) -> (r: Option<&bool>)
        requires
            index_fits(rows_index as nat, columns_index as nat),
        ensures
            ({
                let i = cell_index(rows_index as nat, columns_index as nat);
                &&& i < self.cells().len() ==> r == Some(&self.cells()[i as int])
                &&& i >= self.cells().len() ==> r is None
            }),
    {
        let index = self.calculate_index(rows_index, columns_index);
        if index < self.array.len() {
            Some(&self.array[index])
        } else {
            None
        }
    }

    /// The cell at `rows_index` and `columns_index` for writing, none outside
    /// the array.
    pub fn get_value_mut(&mut self, rows_index: usize, columns_index: usize) -> (r: Option<&mut bool>)
        requires
            index_fits(rows_index as nat, columns_index as nat),
        ensures
            ({
                let i = cell_index(rows_index as nat, columns_index as nat);
                &&& i < old(self).cells().len() ==> r is Some && *r->Some_0 == old(self).cells()[i as int]
                    && final(self).cells() == old(self).cells().update(i as int, *final(r->Some_0))
                    && final(self).size() == old(self).size()
                &&& i >= old(self).cells().len() ==> r is None && *final(self) == *old(self)
            }),
    {
        let index = self.calculate_index(rows_index, columns_index);
        if index < self.array.len() {
            Some(&mut self.array[index])
        } else {
            None
        }
    }

    /// Sets the cell at `rows_index` and `columns_index` to `data`.
    pub fn set_value(&mut self, rows_index: usize, columns_index: usize, data: bool)
        requires
            index_fits(rows_index as nat, columns_index as nat),
            cell_index(rows_index as nat, columns_index as nat) < old(self).cells().len(),
        ensures
            final(self).cells() == old(self).cells().update(
                cell_index(rows_index as nat, columns_index as nat) as int,
                data,
            ),
            final(self).size() == old(self).size(),
    {
        let index = self.calculate_index(rows_index, columns_index);
        self.array[index] = data;
    }

    /// The array position of the cell at `rows_index` and `columns_index`.
    pub fn calculate_index(&self, rows_index: usize, columns_index: usize) -> (r: usize)
        requires
            index_fits(rows_index as nat, columns_index as nat),
        ensures
            r == cell_index(rows_index as nat, columns_index as nat),
    {
        if rows_index < columns_index {
            assert(columns_index + 1 <= columns_index * (columns_index + 1)) by (nonlinear_arith)
                requires
                    columns_index >= 1,
            ;
            columns_index * (columns_index + 1) / 2 + rows_index
        } else if rows_index == 0 {
            columns_index
        } else {
            assert(rows_index + 1 <= rows_index * (rows_index + 1)) by (nonlinear_arith)
                requires
                    rows_index >= 1,
            ;
            rows_index * (rows_index + 1) / 2 + columns_index
        }
    }

    /// Whether both indices are within the recorded size.
    pub fn check_boundaries(&self, rows_index: usize, columns_index: usize) -> (r: bool)
        ensures
            r == (rows_index <= self.size() && columns_index <= self.size()),
    {
        rows_index <= self.dimension && columns_index <= self.dimension
    }
}

} // verus!
