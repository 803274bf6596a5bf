//! A rectangular array stored row by row in one vector, and the split of
//! an array into its anti-diagonals.
use vstd::prelude::*;

verus! {

/// A `width` by `height` array; the cell in column `x` of row `y` is stored
/// at `x + y * width`.
pub struct Flat2dArray<T: Copy> {
    data: Vec<T>,
    width: usize,
    height: usize,
}

impl<T: Copy> Flat2dArray<T> {
    /// The number of columns.
    pub closed spec fn spec_width(&self) -> nat {
        self.width as nat
    }

    /// The number of rows.
    pub closed spec fn spec_height(&self) -> nat {
        self.height as nat
    }

    /// The cells, row by row.
    pub closed spec fn cells(&self) -> Seq<T> {
        self.data@
    }

    /// The cells fill the rectangle exactly.
    pub open spec fn wf(&self) -> bool {
        &&& self.cells().len() == self.spec_width() * self.spec_height()
        &&& self.cells().len() <= usize::MAX
    }

    /// `(x, y)` lies outside the array.
    pub open spec fn out_of_bounds(&self, x: int, y: int) -> bool {
        x >= self.spec_width() || y >= self.spec_height()
    }

    /// The value in column `x` of row `y`.
    pub open spec fn at(&self, x: int, y: int) -> T {
        self.cells()[x + y * self.spec_width()]
    }

    /// A `width` by `height` array with every cell set to `value`.
    pub fn new(width: usize, height: usize, value: T) -> (r: Flat2dArray<T>)
        requires
            width * height <= usize::MAX,
        ensures
            r.wf(),
            r.spec_width() == width,
            r.spec_height() == height,
            forall|i: int| 0 <= i < r.cells().len() ==> r.cells()[i] == value,
    {
        let n = width * height;
        let mut data: Vec<T> = Vec::new();
        let mut i: usize = 0;
        while i < n
            invariant
                i <= n,
                data@.len() == i,
                forall|j: int| 0 <= j < i ==> data@[j] == value,
            decreases n - i,
        {
            data.push(value);
            i = i + 1;
        }
        Flat2dArray { data, width, height }
    }

    /// An array with no cells.
    pub fn new_zero_sized() -> (r: Flat2dArray<T>)
        ensures
            r.wf(),
            r.spec_width() == 0,
            r.spec_height() == 0,
    {
        Flat2dArray { data: Vec::new(), width: 0, height: 0 }
    }

    /// Whether `(x, y)` lies outside the array.
    pub fn is_out_of_bounds(&self, x: usize, y: usize) -> (r: bool)
        ensures
            r == self.out_of_bounds(x as int, y as int),
    {
        x >= self.width || y >= self.height
    }

    fn get_index(&self, x: usize, y: usize) -> (r: usize)
        requires
            self.wf(),
            !self.out_of_bounds(x as int, y as int),
        ensures
            r == x + y * self.spec_width(),
            r < self.cells().len(),
    {
        proof {
            lemma_index_in_bounds(x as nat, y as nat, self.spec_width(), self.spec_height());
        }
        x + y * self.width
    }

    /// The value in column `x` of row `y`.
    pub fn get(&self, x: usize, y: usize) -> (r: T)
        requires
            self.wf(),
            !self.out_of_bounds(x as int, y as int),
        ensures
            r == self.at(x as int, y as int),
    {
        let index = self.get_index(x, y);
        self.data[index]
    }

    /// Overwrites the value in column `x` of row `y`.
    pub fn set(&mut self, x: usize, y: usize, val: T)
        requires
            old(self).wf(),
            !old(self).out_of_bounds(x as int, y as int),
        ensures
            final(self).wf(),
            final(self).spec_width() == old(self).spec_width(),
            final(self).spec_height() == old(self).spec_height(),
            final(self).cells() == old(self).cells().update(x + y * old(self).spec_width(), val),
    {
        let index = self.get_index(x, y);
        self.data.set(index, val);
    }

    /// The number of columns.
    pub fn get_width(&self) -> (r: usize)
        ensures
            r == self.spec_width(),
    {
        self.width
    }

    /// The number of rows.
    pub fn get_height(&self) -> (r: usize)
        ensures
            r == self.spec_height(),
    {
        self.height
    }
}

impl<T: Default + Copy> Flat2dArray<T> {
    /// A `width` by `height` array with every cell set to `T`'s default.
    pub fn new_default(width: usize, height: usize) -> (r: Flat2dArray<T>)
        requires
            width * height <= usize::MAX,
        ensures
            r.wf(),
            r.spec_width() == width,
            r.spec_height() == height,
            forall|i: int| 0 <= i < r.cells().len() ==> #[trigger] r.cells()[i] == r.cells()[0],
    {
        Flat2dArray::new(width, height, T::default())
    }
}

impl<T: Copy> Flat2dArray<T> {
    /// The array whose row `y` is `rows[y]`. An empty list, or one whose
    /// first row is empty, gives an array with no cells; otherwise every row
    /// must be as long as the first, and `None` is returned when one is not.
    pub fn from_rows(rows: Vec<Vec<T>>) -> (r: Option<Flat2dArray<T>>)
        ensures
            rows@.len() == 0 || rows@[0]@.len() == 0 ==> (r matches Some(a) && a.wf() && a.spec_width() == 0
                && a.spec_height() == 0),
            rows@.len() > 0 && rows@[0]@.len() > 0 ==> (r is Some <==> rectangular(rows@)),
            rows@.len() > 0 && rows@[0]@.len() > 0 ==> (r matches Some(a) ==> ({
                &&& a.wf()
                &&& a.spec_width() == rows@[0]@.len()
                &&& a.spec_height() == rows@.len()
                &&& forall|x: int, y: int|
                    0 <= x < a.spec_width() && 0 <= y < a.spec_height() ==> #[trigger] a.at(x, y) == rows@[y]@[x]
            })),
    {
        let height = rows.len();
        if height == 0 {
            return Some(Flat2dArray::new_zero_sized());
        }
        let first_width = rows[0].len();
        if first_width == 0 {
            return Some(Flat2dArray::new_zero_sized());
        }
        let mut data: Vec<T> = Vec::new();
        let mut y: usize = 0;
        while y < height
            invariant
                y <= height,
                height == rows@.len(),
                first_width == rows@[0]@.len(),
                first_width > 0,
                data@.len() == y * first_width,
                forall|yy: int| 0 <= yy < y ==> #[trigger] rows@[yy]@.len() == first_width,
                forall|xx: int, yy: int|
                    0 <= xx < first_width && 0 <= yy < y ==> #[trigger] data@[xx + yy * first_width] == rows@[yy]@[xx],
            decreases height - y,
        {
            let row = &rows[y];
            if row.len() != first_width {
                return None;
            }
            let mut x: usize = 0;
            while x < first_width
                invariant
                    x <= first_width,
                    y < height,
                    height == rows@.len(),
                    *row == rows@[y as int],
                    row@.len() == first_width,
                    data@.len() == y * first_width + x,
                    forall|xx: int, yy: int|
                        0 <= xx < first_width && 0 <= yy < y ==> #[trigger] data@[xx + yy * first_width] == rows@[yy]@[xx],
                    forall|xx: int| 0 <= xx < x ==> #[trigger] data@[xx + y * first_width] == rows@[y as int]@[xx],
                decreases first_width - x,
            {
                let ghost before = data@;
                data.push(row[x]);
                proof {
                    assert forall|xx: int, yy: int|
                        0 <= xx < first_width && 0 <= yy < y implies #[trigger] data@[xx + yy * first_width] == rows@[yy]@[xx] by {
                        lemma_index_in_bounds(xx as nat, yy as nat, first_width as nat, y as nat);
                        assert(data@[xx + yy * first_width] == before[xx + yy * first_width]);
                    }
                }
                x = x + 1;
            }
            proof {
                assert((y + 1) * first_width == y * first_width + first_width) by (nonlinear_arith);
            }
            y = y + 1;
        }
        let len = data.len();
        assert(len == first_width * height) by (nonlinear_arith)
            requires
                len == y * first_width,
                y == height,
        ;
        let a = Flat2dArray { data, width: first_width, height };
        assert forall|x: int, y: int| 0 <= x < a.spec_width() && 0 <= y < a.spec_height() implies #[trigger] a.at(x, y)
            == rows@[y]@[x] by {
            assert(a.at(x, y) == data@[x + y * first_width]);
        }
        Some(a)
    }
}

/// Every row is as long as the first.
pub open spec fn rectangular<T>(rows: Seq<Vec<T>>) -> bool {
    forall|y: int| 0 <= y < rows.len() ==> #[trigger] rows[y]@.len() == rows[0]@.len()
}

/// The `width` by `height` array whose cell `(x, y)` holds `x + width * y`.
pub fn construct_regular_matrix(width: usize, height: usize) -> (r: Flat2dArray<usize>)
    requires
        width * height <= usize::MAX,
    ensures
        r.wf(),
        r.spec_width() == width,
        r.spec_height() == height,
        forall|x: int, y: int| 0 <= x < width && 0 <= y < height ==> #[trigger] r.at(x, y) == x + width * y,
{
    let n = width * height;
    let mut data: Vec<usize> = Vec::new();
    let mut i: usize = 0;
    while i < n
        invariant
            i <= n,
            n == width * height,
            data@.len() == i,
            forall|j: int| 0 <= j < i ==> #[trigger] data@[j] == j,
        decreases n - i,
    {
        data.push(i);
        i = i + 1;
    }
    let r = Flat2dArray { data, width, height };
    assert forall|x: int, y: int| 0 <= x < width && 0 <= y < height implies #[trigger] r.at(x, y) == x + width * y by {
        lemma_index_in_bounds(x as nat, y as nat, width as nat, height as nat);
        assert(width * y == y * width) by (nonlinear_arith);
    }
    r
}

/// The number of cells on the anti-diagonal of `array` that starts at
/// `(start_x, start_y)` and runs down and to the left: none when the start
/// lies outside the array.
pub open spec fn part_len<T: Copy>(array: Flat2dArray<T>, start_x: int, start_y: int) -> int {
    if array.out_of_bounds(start_x, start_y) {
        0
    } else if start_x + 1 <= array.spec_height() - start_y {
        start_x + 1
    } else {
        array.spec_height() - start_y
    }
}

/// The values met from `(start_x, start_y)` stepping one column left and one
/// row down at a time, until the walk leaves the array.
pub open spec fn oblique_part<T: Copy>(array: Flat2dArray<T>, start_x: int, start_y: int) -> Seq<T> {
    Seq::new(part_len(array, start_x, start_y) as nat, |i: int| array.at(start_x - i, start_y + i))
}

/// How many anti-diagonals a `width` by `height` array has.
pub open spec fn oblique_count(width: nat, height: nat) -> nat {
    if height == 0 {
        width
    } else {
        (width + height - 1) as nat
    }
}

/// The start of the `k`-th anti-diagonal: along the top row, then down the
/// last column.
pub open spec fn oblique_start(width: nat, k: int) -> (int, int) {
    if k < width {
        (k, 0)
    } else {
        (width - 1, k - width + 1)
    }
}

fn create_part_oblique<T: Copy>(array: &Flat2dArray<T>, start_x: usize, start_y: usize) -> (r: Vec<T>)
    requires
        array.wf(),
    ensures
        r@ == oblique_part(*array, start_x as int, start_y as int),
{
    let ghost len = part_len(*array, start_x as int, start_y as int);
    let mut x = start_x;
    let mut y = start_y;
    let ghost mut i: int = 0;
    let mut part_result: Vec<T> = Vec::new();
    while !array.is_out_of_bounds(x, y)
        invariant_except_break
            0 <= i <= start_x,
            x == start_x - i,
            y == start_y + i,
            i <= len,
            !array.out_of_bounds(x as int, y as int) <==> i < len,
            part_result@ == Seq::new(i as nat, |k: int| array.at(start_x - k, start_y + k)),
        invariant
            array.wf(),
            len == part_len(*array, start_x as int, start_y as int),
        ensures
            part_result@ == Seq::new(len as nat, |k: int| array.at(start_x - k, start_y + k)),
        decreases len - i,
    {
        let v = array.get(x, y);
        part_result.push(v);
        proof {
            assert(part_result@ =~= Seq::new((i + 1) as nat, |k: int| array.at(start_x - k, start_y + k)));
        }
        if x == 0 {
            break;
        }
        x = x - 1;
        y = y + 1;
        proof {
            i = i + 1;
        }
    }
    part_result
}

/// The anti-diagonals of `array`: first those that start on the top row,
/// left to right, then those that start in the last column below the top
/// row, top to bottom. Each lists its cells from the top right down to the
/// bottom left.
pub fn oblique<T: Default + Copy>(array: &Flat2dArray<T>) -> (r: Vec<Vec<T>>)
    requires
        array.wf(),
        array.spec_width() > 0 || array.spec_height() <= 1,
    ensures
        r@.len() == oblique_count(array.spec_width(), array.spec_height()),
        forall|k: int|
            0 <= k < r@.len() ==> (#[trigger] r@[k])@ == oblique_part(
                *array,
                oblique_start(array.spec_width(), k).0,
                oblique_start(array.spec_width(), k).1,
            ),
{
    let width = array.get_width();
    let height = array.get_height();
    let mut result: Vec<Vec<T>> = Vec::new();
    let mut start_x: usize = 0;
    while start_x < width
        invariant
            start_x <= width,
            width == array.spec_width(),
            array.wf(),
            result@.len() == start_x,
            forall|k: int|
                0 <= k < result@.len() ==> (#[trigger] result@[k])@ == oblique_part(
                    *array,
                    oblique_start(array.spec_width(), k).0,
                    oblique_start(array.spec_width(), k).1,
                ),
        decreases width - start_x,
    {
        let part_result = create_part_oblique(array, start_x, 0);
        result.push(part_result);
        start_x = start_x + 1;
    }
    let mut start_y: usize = 1;
    while start_y < height
        invariant
            1 <= start_y,
            start_y <= height || (height == 0 && start_y == 1),
            width == array.spec_width(),
            height == array.spec_height(),
            width > 0 || height <= 1,
            array.wf(),
            result@.len() == width + start_y - 1,
            forall|k: int|
                0 <= k < result@.len() ==> (#[trigger] result@[k])@ == oblique_part(
                    *array,
                    oblique_start(array.spec_width(), k).0,
                    oblique_start(array.spec_width(), k).1,
                ),
        decreases height - start_y,
    {
        let part_result = create_part_oblique(array, width - 1, start_y);
        result.push(part_result);
        start_y = start_y + 1;
    }
    result
}

/// The length of the `k`-th anti-diagonal of an `n` by `n` array.
pub open spec fn diag_len(n: int, k: int) -> int {
    if k < n {
        k + 1
    } else {
        2 * n - 1 - k
    }
}

/// The position of cell `(x, y)` of an `n` by `n` array within its
/// anti-diagonal, the `(x + y)`-th.
pub open spec fn diag_index(n: int, x: int, y: int) -> int {
    if x + y < n {
        y
    } else {
        n - 1 - x
    }
}

/// The order of the square whose anti-diagonals `parts` would be.
pub open spec fn oblique_order<T>(parts: Seq<Vec<T>>) -> int {
    (parts.len() as int + 1) / 2
}

/// `parts` has the lengths of the anti-diagonals of a square, in the order
/// of [`oblique`].
pub open spec fn oblique_shape<T>(parts: Seq<Vec<T>>) -> bool {
    &&& parts.len() % 2 == 1
    &&& forall|k: int|
        0 <= k < parts.len() ==> #[trigger] parts[k]@.len() == diag_len(oblique_order(parts), k)
}

/// Rebuilds a square array from its anti-diagonals, listed as [`oblique`]
/// lists them. No parts give an array with no cells; parts of any other
/// shape give `None`.
pub fn de_oblique_square<T: Copy>(vec: &Vec<Vec<T>>) -> (r: Option<Flat2dArray<T>>)
    ensures
        vec@.len() == 0 ==> (r matches Some(a) && a.wf() && a.spec_width() == 0 && a.spec_height() == 0),
        vec@.len() > 0 ==> (r is Some <==> oblique_shape(vec@)),
        r matches Some(a) ==> ({
            let n = oblique_order(vec@);
            &&& a.wf()
            &&& vec@.len() > 0 ==> a.spec_width() == n && a.spec_height() == n
            &&& forall|x: int, y: int|
                0 <= x < a.spec_width() && 0 <= y < a.spec_height() ==> #[trigger] a.at(x, y) == vec@[x + y]@[diag_index(
                    n,
                    x,
                    y,
                )]
        }),
{
    let count = vec.len();
    if count == 0 {
        return Some(Flat2dArray::new_zero_sized());
    }
    if count % 2 == 0 {
        return None;
    }
    let n = count / 2 + 1;
    assert(n == oblique_order(vec@));
    let mut k: usize = 0;
    while k < count
        invariant
            k <= count,
            count == vec@.len(),
            n == oblique_order(vec@),
            count == 2 * n - 1,
            forall|j: int| 0 <= j < k ==> #[trigger] vec@[j]@.len() == diag_len(n as int, j),
        decreases count - k,
    {
        let expected = if k < n {
            k + 1
        } else {
            count - k
        };
        if vec[k].len() != expected {
            return None;
        }
        k = k + 1;
    }
    let mut data: Vec<T> = Vec::new();
    let mut y: usize = 0;
    while y < n
        invariant
            y <= n,
            count == vec@.len(),
            n == oblique_order(vec@),
            count == 2 * n - 1,
            oblique_shape(vec@),
            data@.len() == y * n,
            forall|xx: int, yy: int|
                0 <= xx < n && 0 <= yy < y ==> #[trigger] data@[xx + yy * n] == vec@[xx + yy]@[diag_index(n as int, xx, yy)],
        decreases n - y,
    {
        let mut x: usize = 0;
        while x < n
            invariant
                x <= n,
                y < n,
                count == vec@.len(),
                n == oblique_order(vec@),
                count == 2 * n - 1,
                oblique_shape(vec@),
                data@.len() == y * n + x,
                forall|xx: int, yy: int|
                    0 <= xx < n && 0 <= yy < y ==> #[trigger] data@[xx + yy * n] == vec@[xx + yy]@[diag_index(n as int, xx, yy)],
                forall|xx: int| 0 <= xx < x ==> #[trigger] data@[xx + y * n] == vec@[xx + y]@[diag_index(n as int, xx, y as int)],
            decreases n - x,
        {
            let d = x + y;
            let i = if d < n {
                y
            } else {
                n - 1 - x
            };
            assert(vec@[d as int]@.len() == diag_len(n as int, d as int));
            let ghost before = data@;
            data.push(vec[d][i]);
            proof {
                assert forall|xx: int, yy: int|
                    0 <= xx < n && 0 <= yy < y implies #[trigger] data@[xx + yy * n] == vec@[xx + yy]@[diag_index(n as int, xx, yy)] by {
                    lemma_index_in_bounds(xx as nat, yy as nat, n as nat, y as nat);
                    assert(data@[xx + yy * n] == before[xx + yy * n]);
                }
            }
            x = x + 1;
        }
        proof {
            assert((y + 1) * n == y * n + n) by (nonlinear_arith);
        }
        y = y + 1;
    }
    let len = data.len();
    assert(len == n * n) by (nonlinear_arith)
        requires
            len == y * n,
            y == n,
    ;
    let a = Flat2dArray { data, width: n, height: n };
    assert forall|x: int, y: int| 0 <= x < a.spec_width() && 0 <= y < a.spec_height() implies #[trigger] a.at(x, y)
        == vec@[x + y]@[diag_index(n as int, x, y)] by {
        assert(a.at(x, y) == data@[x + y * n]);
    }
    Some(a)
}

/// The anti-diagonals that [`oblique`] lists for an `n` by `n` array have
/// the shape that [`de_oblique_square`] reads, and each cell `(x, y)` stands
/// where [`de_oblique_square`] takes it from, so that the square comes back
/// unchanged.
pub proof fn lemma_de_oblique_inverts_oblique<T: Copy>(array: Flat2dArray<T>, parts: Seq<Vec<T>>)
    requires
        array.wf(),
        array.spec_width() == array.spec_height(),
        array.spec_width() > 0,
        parts.len() == oblique_count(array.spec_width(), array.spec_height()),
        forall|k: int|
            0 <= k < parts.len() ==> (#[trigger] parts[k])@ == oblique_part(
                array,
                oblique_start(array.spec_width(), k).0,
                oblique_start(array.spec_width(), k).1,
            ),
    ensures
        oblique_shape(parts),
        oblique_order(parts) == array.spec_width(),
        forall|x: int, y: int|
            0 <= x < array.spec_width() && 0 <= y < array.spec_height() ==> parts[x + y]@[diag_index(
                array.spec_width() as int,
                x,
                y,
            )] == #[trigger] array.at(x, y),
{
    let n = array.spec_width() as int;
    assert(oblique_order(parts) == n);
    assert forall|k: int| 0 <= k < parts.len() implies #[trigger] parts[k]@.len() == diag_len(oblique_order(parts), k) by {
        assert(parts[k]@.len() == part_len(array, oblique_start(n as nat, k).0, oblique_start(n as nat, k).1));
    }
    assert forall|x: int, y: int| 0 <= x < n && 0 <= y < n implies parts[x + y]@[diag_index(n, x, y)]
        == #[trigger] array.at(x, y) by {
        let k = x + y;
        assert(parts[k]@ == oblique_part(array, oblique_start(n as nat, k).0, oblique_start(n as nat, k).1));
    }
}

/// The cell in column `x` of row `y` lies in a `w` by `h` array.
proof fn lemma_index_in_bounds(x: nat, y: nat, w: nat, h: nat)
    requires
        x < w,
        y < h,
    ensures
        x + y * w < w * h,
        x + y * w < h * w,
{
    assert(x + y * w < w * h && x + y * w < h * w) by (nonlinear_arith)
        requires
            x < w,
            y < h,
    ;
}

} // verus!
