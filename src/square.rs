//! Square grids of unsigned integers, their lines (rows, columns and the two
//! diagonals), a magic-square check and a brute-force completer.
use vstd::prelude::*;

verus! {

/// Why an operation on a square was refused, or found nothing.
#[derive(Debug, Clone, Copy, PartialEq, Eq, Structural)]
pub enum SquareError {
    /// The number of values does not fit the requested shape.
    ShapeError,
    /// A coordinate lies outside the square.
    OutOfBoundsError,
    /// No assignment of the digits 1 to 9 to the missing cells is magic.
    NoSolution,
}

/// One of the two main diagonals.
#[derive(Debug, Clone, Copy, PartialEq, Eq, Structural)]
pub enum Diagonal {
    /// From the top-left corner to the bottom-right one.
    First,
    /// From the top-right corner to the bottom-left one.
    Second,
}

/// A line of a square: a row, a column or a diagonal.
#[derive(Debug, Clone, Copy, PartialEq, Eq, Structural)]
pub enum SquareLine {
    Row(usize),
    Col(usize),
    Diag(Diagonal),
}

impl SquareLine {
    /// The sum of the values on this line of `square`; refused with
    /// `OutOfBoundsError` for a row or a column past the last.
    pub fn sum(&self, square: &Square) -> (r: Result<u128, SquareError>)
        requires
            square.wf(),
        ensures
            r is Err <==> !line_valid(square.dim(), *self),
            r matches Err(e) ==> e == SquareError::OutOfBoundsError,
            r matches Ok(v) ==> v == line_sum(square@, square.dim(), *self),
    {
        square.sum_of(self)
    }
}

/// The flat index of the first cell of `line` in a square of order `a`.
pub open spec fn line_start(a: int, line: SquareLine) -> int {
    match line {
        SquareLine::Row(r) => r * a,
        SquareLine::Col(c) => c as int,
        SquareLine::Diag(Diagonal::First) => 0,
        SquareLine::Diag(Diagonal::Second) => a - 1,
    }
}

/// The distance between two consecutive cells of `line` in a square of order `a`.
pub open spec fn line_stride(a: int, line: SquareLine) -> int {
    match line {
        SquareLine::Row(_) => 1,
        SquareLine::Col(_) => a,
        SquareLine::Diag(Diagonal::First) => a + 1,
        SquareLine::Diag(Diagonal::Second) => a - 1,
    }
}

/// The flat index of the `i`-th cell of `line` in a square of order `a`.
pub open spec fn cell(a: int, line: SquareLine, i: int) -> int {
    line_start(a, line) + i * line_stride(a, line)
}

/// `line` names a line of a square of order `a`.
pub open spec fn line_valid(a: nat, line: SquareLine) -> bool {
    match line {
        SquareLine::Row(r) => r < a,
        SquareLine::Col(c) => c < a,
        SquareLine::Diag(_) => true,
    }
}

/// The `a` values on `line`, in traversal order.
pub open spec fn line_values(data: Seq<usize>, a: nat, line: SquareLine) -> Seq<usize> {
    Seq::new(a, |i: int| data[cell(a as int, line, i)])
}

/// The arithmetic sum of a sequence.
pub open spec fn seq_sum(s: Seq<usize>) -> int
    decreases s.len(),
{
    if s.len() == 0 {
        0
    } else {
        seq_sum(s.drop_last()) + s.last()
    }
}

/// The sum of the values on `line`.
pub open spec fn line_sum(data: Seq<usize>, a: nat, line: SquareLine) -> int {
    seq_sum(line_values(data, a, line))
}

/// The number of lines of a square of order `a`.
pub open spec fn line_count(a: nat) -> nat {
    2 * a + 2
}

/// The `k`-th line in the canonical order: the rows, then the columns, then
/// the first and the second diagonal.
pub open spec fn line_at(a: nat, k: int) -> SquareLine {
    if k < a {
        SquareLine::Row(k as usize)
    } else if k < 2 * a {
        SquareLine::Col((k - a) as usize)
    } else if k == 2 * a {
        SquareLine::Diag(Diagonal::First)
    } else {
        SquareLine::Diag(Diagonal::Second)
    }
}

/// All lines of the square of order `a` over `data` have the same sum.
pub open spec fn magic(data: Seq<usize>, a: nat) -> bool {
    forall|i: int, j: int|
        0 <= i < line_count(a) && 0 <= j < line_count(a) ==> #[trigger] line_sum(data, a, line_at(a, i))
            == #[trigger] line_sum(data, a, line_at(a, j))
}

/// The magic constant of a square holding each of `1 ..= a * a` once.
pub open spec fn magic_constant(a: nat) -> nat {
    a * (a * a + 1) / 2
}

/// `9` to the power `e`.
pub open spec fn pow9(e: nat) -> nat
    decreases e,
{
    if e == 0 {
        1
    } else {
        9 * pow9((e - 1) as nat)
    }
}

/// The digits that the completer puts into `m` missing cells at step `t` of
/// its search: a counter in base nine, least significant cell first, where
/// missing cell `j` holds `1 + (t / 9^j) % 9`.
pub open spec fn search_digits(t: nat, m: nat) -> Seq<usize>
    decreases m,
{
    if m == 0 {
        Seq::empty()
    } else {
        seq![(1 + t % 9) as usize] + search_digits(t / 9, (m - 1) as nat)
    }
}

/// `m` cells holding `1`.
pub open spec fn ones(m: nat) -> Seq<usize> {
    Seq::new(m, |i: int| 1usize)
}

/// A prefix of `k` values can be completed to a square: `k == a * (a - 1)`
/// for some order `a >= 1`, so that exactly one row is missing.
pub open spec fn has_completion_order(k: nat) -> bool {
    exists|a: nat| 1 <= a && #[trigger] (a * (a - 1)) == k
}

/// The order of the square that completes a prefix of `k` values.
pub open spec fn completion_order(k: nat) -> nat {
    choose|a: nat| 1 <= a && #[trigger] (a * (a - 1)) == k
}

/// The candidate at step `t` of the search: `prefix` followed by the
/// missing cells of a square of order `a`.
pub open spec fn completion(prefix: Seq<usize>, a: nat, t: nat) -> Seq<usize> {
    prefix + search_digits(t, (a * a - prefix.len()) as nat)
}

/// The number of candidates of the search.
pub open spec fn search_size(prefix: Seq<usize>, a: nat) -> nat {
    pow9((a * a - prefix.len()) as nat)
}

/// Step `t` is the first step of the search whose candidate is magic.
pub open spec fn first_magic_completion(prefix: Seq<usize>, a: nat, t: nat) -> bool {
    &&& t < search_size(prefix, a)
    &&& magic(completion(prefix, a, t), a)
    &&& forall|u: nat| u < t ==> !magic(#[trigger] completion(prefix, a, u), a)
}

/// No candidate of the search is magic.
pub open spec fn no_magic_completion(prefix: Seq<usize>, a: nat) -> bool {
    forall|u: nat| u < search_size(prefix, a) ==> !magic(#[trigger] completion(prefix, a, u), a)
}

/// A square matrix of order `a`, stored row by row in `a * a` cells.
pub struct Square {
    a: usize,
    data: Vec<usize>,
}

impl View for Square {
    type V = Seq<usize>;

    /// The cells, row by row.
    closed spec fn view(&self) -> Seq<usize> {
        self.data@
    }
}

/// The values of one line of a square, handed out one at a time: the cell
/// `start + i * jump` for `i` in `0 .. a`.
pub struct SquareIter<'a> {
    square: &'a Square,
    start: usize,
    jump: usize,
    i: usize,
}

impl<'a> SquareIter<'a> {
    /// All values of the line, those already handed out included.
    pub closed spec fn values(&self) -> Seq<usize> {
        Seq::new(self.square.dim(), |k: int| self.square@[self.start + k * self.jump])
    }

    /// How many values were handed out.
    pub closed spec fn pos(&self) -> nat {
        self.i as nat
    }

    /// Every cell of the line lies in the square.
    pub closed spec fn wf(&self) -> bool {
        &&& self.square.wf()
        &&& self.i <= self.square.a
        &&& forall|k: int| 0 <= k < self.square.a ==> self.start + #[trigger] (k * self.jump) < self.square@.len()
    }

    /// The next value of the line, if any is left.
    pub fn next(&mut self) -> (r: Option<usize>)
        requires
            old(self).wf(),
        ensures
            final(self).wf(),
            final(self).values() == old(self).values(),
            old(self).pos() < old(self).values().len() ==> r == Some(old(self).values()[old(self).pos() as int])
                && final(self).pos() == old(self).pos() + 1,
            old(self).pos() >= old(self).values().len() ==> r is None && final(self).pos() == old(self).pos(),
    {
        if self.i >= self.square.a {
            return None;
        }
        let i = self.i;
        let jump = self.jump;
        assert(self.start + (i as int) * (jump as int) < self.square@.len());
        let value = self.square.data[self.start + i * jump];
        self.i = self.i + 1;
        Some(value)
    }

    /// The values not handed out yet.
    pub fn rest(self) -> (r: Vec<usize>)
        requires
            self.wf(),
        ensures
            r@ == self.values().subrange(self.pos() as int, self.values().len() as int),
    {
        let ghost vals = self.values();
        let ghost p0 = self.pos();
        let mut it = self;
        let mut out: Vec<usize> = Vec::new();
        loop
            invariant
                it.wf(),
                it.values() == vals,
                vals == self.values(),
                p0 == self.pos(),
                p0 <= it.pos() <= vals.len(),
                out@ == vals.subrange(p0 as int, it.pos() as int),
            decreases vals.len() - it.pos(),
        {
            match it.next() {
                Some(v) => {
                    out.push(v);
                },
                None => {
                    assert(it.pos() == vals.len());
                    return out;
                },
            }
        }
    }
}

/// The lines of a square of order `a`, one at a time, in the order of
/// [`line_at`].
pub struct LineIter {
    a: usize,
    i: usize,
}

impl LineIter {
    /// The order of the square whose lines are listed.
    pub closed spec fn order(&self) -> nat {
        self.a as nat
    }

    /// How many lines were handed out.
    pub closed spec fn pos(&self) -> nat {
        self.i as nat
    }

    pub open spec fn wf(&self) -> bool {
        &&& self.pos() <= line_count(self.order())
        &&& line_count(self.order()) <= usize::MAX
    }

    /// Starts listing the lines of a square of order `a`.
    pub fn new(a: usize) -> (r: LineIter)
        requires
            line_count(a as nat) <= usize::MAX,
        ensures
            r.wf(),
            r.order() == a,
            r.pos() == 0,
    {
        LineIter { a, i: 0 }
    }

    /// The next line, if any is left.
    pub fn next(&mut self) -> (r: Option<SquareLine>)
        requires
            old(self).wf(),
        ensures
            final(self).wf(),
            final(self).order() == old(self).order(),
            old(self).pos() < line_count(old(self).order()) ==> r == Some(line_at(old(self).order(), old(self).pos() as int))
                && final(self).pos() == old(self).pos() + 1,
            old(self).pos() >= line_count(old(self).order()) ==> r is None && final(self).pos() == old(self).pos(),
    {
        let a = self.a;
        let i = self.i;
        if i >= 2 * a + 2 {
            return None;
        }
        let line = if i < a {
            SquareLine::Row(i)
        } else if i < 2 * a {
            SquareLine::Col(i - a)
        } else if i == 2 * a {
            SquareLine::Diag(Diagonal::First)
        } else {
            SquareLine::Diag(Diagonal::Second)
        };
        self.i = i + 1;
        Some(line)
    }
}

/// Every line of a square of order `a`, in the order of [`line_at`].
pub fn lines_for(a: usize) -> (r: Vec<SquareLine>)
    requires
        line_count(a as nat) <= usize::MAX,
    ensures
        r@.len() == line_count(a as nat),
        forall|k: int| 0 <= k < r@.len() ==> #[trigger] r@[k] == line_at(a as nat, k),
{
    let mut lines = LineIter::new(a);
    let mut out: Vec<SquareLine> = Vec::new();
    loop
        invariant
            lines.wf(),
            lines.order() == a,
            out@.len() == lines.pos(),
            forall|k: int| 0 <= k < out@.len() ==> out@[k] == line_at(a as nat, k),
        decreases line_count(a as nat) - lines.pos(),
    {
        match lines.next() {
            Some(line) => out.push(line),
            None => return out,
        }
    }
}

/// Each line in the canonical order is a line of the square.
proof fn lemma_lines_valid(a: nat)
    ensures
        forall|k: int| 0 <= k < line_count(a) ==> line_valid(a, #[trigger] line_at(a, k)),
{
}

/// Adding one more element to a prefix adds that element to its sum.
proof fn lemma_prefix_sum(s: Seq<usize>, i: int)
    requires
        0 <= i < s.len(),
    ensures
        seq_sum(s.take(i + 1)) == seq_sum(s.take(i)) + s[i],
{
    assert(s.take(i + 1).drop_last() =~= s.take(i));
}

/// The search starts with every missing cell at `1`.
proof fn lemma_search_start(m: nat)
    ensures
        search_digits(0, m) == ones(m),
    decreases m,
{
    if m > 0 {
        lemma_search_start((m - 1) as nat);
        assert(search_digits(0, m) =~= ones(m));
    }
}

/// The first missing cell of step `q` holds `1 + q % 9`; one step later it
/// holds one more, or `1` with a carry into the next cell.
proof fn lemma_digits_step(q: nat, r: nat)
    requires
        r > 0,
    ensures
        search_digits(q, r) == seq![(1 + q % 9) as usize] + search_digits(q / 9, (r - 1) as nat),
        q % 9 < 8 ==> search_digits(q + 1, r) == seq![(2 + q % 9) as usize] + search_digits(q / 9, (r - 1) as nat),
        q % 9 == 8 ==> search_digits(q + 1, r) == seq![1usize] + search_digits(q / 9 + 1, (r - 1) as nat),
{
    assert(q % 9 < 8 ==> (q + 1) % 9 == q % 9 + 1 && (q + 1) / 9 == q / 9);
    assert(q % 9 == 8 ==> (q + 1) % 9 == 0 && (q + 1) / 9 == q / 9 + 1);
}

/// A carry out of the cell at position `j` of the counter.
proof fn lemma_carry(t1: nat, q: nat, j: nat, r: nat)
    requires
        r > 0,
        q % 9 == 8,
        t1 == (q + 1) * pow9(j),
        q < pow9(r),
    ensures
        t1 == (q / 9 + 1) * pow9(j + 1),
        q / 9 < pow9((r - 1) as nat),
{
    assert(q + 1 == 9 * (q / 9 + 1));
    assert(pow9(j + 1) == 9 * pow9(j));
    assert((q + 1) * pow9(j) == (q / 9 + 1) * (9 * pow9(j))) by (nonlinear_arith)
        requires
            q + 1 == 9 * (q / 9 + 1),
    ;
    assert(pow9(r) == 9 * pow9((r - 1) as nat));
}

/// An increment of the cell at position `j` that stops there stays inside
/// the search.
proof fn lemma_no_carry(t1: nat, q: nat, j: nat, r: nat, m: nat)
    requires
        r > 0,
        r + j == m,
        q % 9 < 8,
        t1 == (q + 1) * pow9(j),
        q < pow9(r),
    ensures
        t1 < pow9(m),
{
    assert(pow9(r) == 9 * pow9((r - 1) as nat));
    assert(q / 9 < pow9((r - 1) as nat));
    assert(q + 1 < pow9(r));
    lemma_pow9_add(r, j);
    assert((q + 1) * pow9(j) < pow9(r) * pow9(j)) by (nonlinear_arith)
        requires
            q + 1 < pow9(r),
            pow9(j) > 0,
    ;
}

/// `9^(x + y) == 9^x * 9^y`, and powers of nine are positive.
proof fn lemma_pow9_add(x: nat, y: nat)
    ensures
        pow9(x + y) == pow9(x) * pow9(y),
        pow9(y) > 0,
    decreases y,
{
    if y > 0 {
        let y1 = (y - 1) as nat;
        lemma_pow9_add(x, y1);
        assert(pow9(x + y1) == pow9(x) * pow9(y1));
        assert(x + y == (x + y1) + 1);
        assert(pow9(x + y) == 9 * pow9(x + y1));
        assert(pow9(y) == 9 * pow9(y1));
        assert(pow9(x) * (9 * pow9(y1)) == 9 * (pow9(x) * pow9(y1))) by (nonlinear_arith);
    } else {
        assert(pow9(0) == 1);
        assert(x + y == x);
        assert(pow9(x) * 1 == pow9(x));
    }
}

proof fn lemma_product_bound(a: nat, k: nat)
    requires
        1 <= a <= k + 1,
        k <= usize::MAX / 2,
    ensures
        a * (a - 1) <= u128::MAX,
{
    assert(a * (a - 1) <= (k + 1) * (k + 1)) by (nonlinear_arith)
        requires
            1 <= a <= k + 1,
    ;
    assert((k + 1) * (k + 1) <= 0x8000_0000_0000_0000 * 0x8000_0000_0000_0000) by (nonlinear_arith)
        requires
            k + 1 <= 0x8000_0000_0000_0000,
    ;
}

/// The search loop of [`Square::try_new`] stops at the least `a >= 1` with
/// `a * (a - 1) >= k`; `k` has a completion order exactly when that product
/// is `k`, and the order is then `a`.
proof fn lemma_completion_order(a: nat, k: nat)
    requires
        1 <= a,
        a == 1 || (a - 1) * (a - 2) < k,
        a * (a - 1) >= k,
    ensures
        has_completion_order(k) <==> a * (a - 1) == k,
        has_completion_order(k) ==> completion_order(k) == a,
{
    if has_completion_order(k) {
        let b = completion_order(k);
        if b < a {
            assert(b * (b - 1) <= (a - 1) * (a - 2)) by (nonlinear_arith)
                requires
                    1 <= b < a,
            ;
        } else if b > a {
            assert(b * (b - 1) > a * (a - 1)) by (nonlinear_arith)
                requires
                    1 <= a < b,
            ;
        }
    }
}

/// The canonical list of lines of a square of order `a` names `2 * a + 2`
/// distinct lines, each a line of the square, and covers every cell: the
/// cell at flat index `c` is cell `c % a` of row `c / a` and cell `c / a` of
/// column `c % a`, and lies on no other row and no other column; each
/// diagonal passes through a cell at most once, so the two diagonals
/// together touch a cell at most twice.
pub proof fn lemma_lines_distinct_and_covering(a: nat)
    requires
        a <= usize::MAX,
    ensures
        forall|k: int| 0 <= k < line_count(a) ==> line_valid(a, #[trigger] line_at(a, k)),
        forall|k1: int, k2: int|
            0 <= k1 < line_count(a) && 0 <= k2 < line_count(a) && k1 != k2 ==> #[trigger] line_at(a, k1) != #[trigger] line_at(a, k2),
        forall|c: int|
            0 <= c < a * a ==> {
                &&& cell(a as int, #[trigger] line_at(a, c / a as int), c % a as int) == c
                &&& cell(a as int, line_at(a, a + c % a as int), c / a as int) == c
            },
        forall|k: int, i: int|
            0 <= k < 2 * a && 0 <= i < a ==> {
                let c = #[trigger] cell(a as int, line_at(a, k), i);
                ||| k < a && k == c / a as int && i == c % a as int
                ||| a <= k && k - a == c % a as int && i == c / a as int
            },
        forall|d: Diagonal, i1: int, i2: int|
            0 <= i1 < a && 0 <= i2 < a && #[trigger] cell(a as int, SquareLine::Diag(d), i1) == #[trigger] cell(
                a as int,
                SquareLine::Diag(d),
                i2,
            ) ==> i1 == i2,
{
    lemma_lines_valid(a);
    assert forall|c: int| 0 <= c < a * a implies {
        &&& cell(a as int, #[trigger] line_at(a, c / a as int), c % a as int) == c
        &&& cell(a as int, line_at(a, a + c % a as int), c / a as int) == c
    } by {
        lemma_cell_decompose(a as int, c);
    }
    assert forall|k: int, i: int| 0 <= k < 2 * a && 0 <= i < a implies {
        let c = #[trigger] cell(a as int, line_at(a, k), i);
        ||| k < a && k == c / a as int && i == c % a as int
        ||| a <= k && k - a == c % a as int && i == c / a as int
    } by {
        let c = cell(a as int, line_at(a, k), i);
        if k < a {
            lemma_div_mod_unique(a as int, k, i, c);
        } else {
            lemma_div_mod_unique(a as int, i, k - a, c);
        }
    }
    assert forall|d: Diagonal, i1: int, i2: int|
        0 <= i1 < a && 0 <= i2 < a && #[trigger] cell(a as int, SquareLine::Diag(d), i1) == #[trigger] cell(
            a as int,
            SquareLine::Diag(d),
            i2,
        ) implies i1 == i2 by {
        let step = line_stride(a as int, SquareLine::Diag(d));
        if a == 1 {
        } else {
            assert(step > 0);
            assert(i1 * step == i2 * step);
            assert(i1 == i2) by (nonlinear_arith)
                requires
                    step > 0,
                    i1 * step == i2 * step,
            ;
        }
    }
}

/// Exchanging two cells that hold the same value leaves a square magic or
/// not magic, as it was.
pub proof fn lemma_swap_equal_cells(data: Seq<usize>, a: nat, i: int, j: int)
    requires
        0 <= i < data.len(),
        0 <= j < data.len(),
        data[i] == data[j],
    ensures
        magic(data.update(i, data[j]).update(j, data[i]), a) == magic(data, a),
{
    assert(data.update(i, data[j]).update(j, data[i]) =~= data);
}

/// The flat index `c` of a square of order `a` is `(c / a) * a + c % a`.
proof fn lemma_cell_decompose(a: int, c: int)
    requires
        0 <= a,
        0 <= c < a * a,
    ensures
        0 <= c / a < a,
        0 <= c % a < a,
        (c / a) * a + c % a == c,
        c % a + (c / a) * a == c,
{
    assert(a > 0) by (nonlinear_arith)
        requires
            0 <= a,
            0 <= c < a * a,
    ;
    assert((c / a) * a + c % a == c) by (nonlinear_arith)
        requires
            a > 0,
    ;
    assert(c / a < a) by (nonlinear_arith)
        requires
            a > 0,
            0 <= c < a * a,
            (c / a) * a + c % a == c,
            0 <= c % a,
    ;
}

/// A flat index determines its row and column.
proof fn lemma_div_mod_unique(a: int, r: int, x: int, c: int)
    requires
        0 <= r,
        0 <= x < a,
        r * a + x == c,
    ensures
        r == c / a,
        x == c % a,
{
    assert(r == c / a && x == c % a) by (nonlinear_arith)
        requires
            0 <= r,
            0 <= x < a,
            r * a + x == c,
    ;
}

/// `n` is the square of a natural number.
pub open spec fn is_perfect_square(n: nat) -> bool {
    exists|a: nat| #[trigger] (a * a) == n
}

impl Square {
    /// The side length.
    pub closed spec fn dim(&self) -> nat {
        self.a as nat
    }

    /// The cells fill the square exactly.
    pub open spec fn wf(&self) -> bool {
        &&& self.dim() * self.dim() == self@.len()
        &&& self@.len() <= usize::MAX
    }

    /// Builds the square whose cells, row by row, are `data`; refused with
    /// `ShapeError` unless the length of `data` is a perfect square.
    pub fn new(data: Vec<usize>) -> (r: Result<Square, SquareError>)
        ensures
            is_perfect_square(data@.len()) <==> r is Ok,
            r matches Ok(s) ==> s.wf() && s@ == data@,
            forall|a: nat| #[trigger] (a * a) == data@.len() ==> (r matches Ok(s) && s.dim() == a),
            r matches Err(e) ==> e == SquareError::ShapeError,
    {
        let n = data.len();
        let mut a: usize = 0;
        loop
            invariant
                a * a <= n,
                a < 0x1_0000_0000,
            ensures
                a * a <= n < (a + 1) * (a + 1),
            decreases n - a,
        {
            let next: u128 = a as u128 + 1;
            proof {
                lemma_square_bound(next as nat, 0x1_0000_0000);
            }
            if next * next > n as u128 {
                break;
            }
            proof {
                lemma_square_grows(a as nat);
                lemma_root_bound(next as nat, n as nat);
            }
            a = a + 1;
        }
        proof {
            lemma_between_squares(a as nat, n as nat);
        }
        if a * a == n {
            proof {
                assert forall|b: nat| #[trigger] (b * b) == data@.len() implies b == a by {
                    lemma_root_unique(a as nat, b);
                }
            }
            Ok(Square { a, data })
        } else {
            Err(SquareError::ShapeError)
        }
    }

    /// Whether `line` is a line of this square: refuses rows and columns
    /// past the last.
    fn check_line(&self, line: &SquareLine) -> (r: bool)
        ensures
            r == line_valid(self.dim(), *line),
    {
        match line {
            SquareLine::Row(r) => *r < self.a,
            SquareLine::Col(c) => *c < self.a,
            SquareLine::Diag(_) => true,
        }
    }

    /// The values of `line`, one at a time; refused with `OutOfBoundsError`
    /// for a row or a column past the last.
    pub fn get_iter<'a>(&'a self, line: &SquareLine) -> (r: Result<SquareIter<'a>, SquareError>)
        requires
            self.wf(),
        ensures
            r is Err <==> !line_valid(self.dim(), *line),
            r matches Err(e) ==> e == SquareError::OutOfBoundsError,
            r matches Ok(it) ==> it.wf() && it.pos() == 0 && it.values() == line_values(self@, self.dim(), *line),
    {
        if !self.check_line(line) {
            return Err(SquareError::OutOfBoundsError);
        }
        Ok(self.line_iter(line))
    }

    /// The values of row `r`, left to right; refused with
    /// `OutOfBoundsError` when `r` is past the last row.
    pub fn row<'a>(&'a self, r: usize) -> (it: Result<SquareIter<'a>, SquareError>)
        requires
            self.wf(),
        ensures
            it is Err <==> r >= self.dim(),
            it matches Err(e) ==> e == SquareError::OutOfBoundsError,
            it matches Ok(i) ==> i.wf() && i.pos() == 0 && i.values() == line_values(self@, self.dim(), SquareLine::Row(r)),
    {
        if r >= self.a {
            return Err(SquareError::OutOfBoundsError);
        }
        Ok(self.row_iter(r))
    }

    /// The values of column `c`, top to bottom; refused with
    /// `OutOfBoundsError` when `c` is past the last column.
    pub fn col<'a>(&'a self, c: usize) -> (it: Result<SquareIter<'a>, SquareError>)
        requires
            self.wf(),
        ensures
            it is Err <==> c >= self.dim(),
            it matches Err(e) ==> e == SquareError::OutOfBoundsError,
            it matches Ok(i) ==> i.wf() && i.pos() == 0 && i.values() == line_values(self@, self.dim(), SquareLine::Col(c)),
    {
        if c >= self.a {
            return Err(SquareError::OutOfBoundsError);
        }
        Ok(self.col_iter(c))
    }

    /// The sum of the values on `line`; refused with `OutOfBoundsError` for
    /// a row or a column past the last.
    pub fn sum_of(&self, line: &SquareLine) -> (r: Result<u128, SquareError>)
        requires
            self.wf(),
        ensures
            r is Err <==> !line_valid(self.dim(), *line),
            r matches Err(e) ==> e == SquareError::OutOfBoundsError,
            r matches Ok(v) ==> v == line_sum(self@, self.dim(), *line),
    {
        if !self.check_line(line) {
            return Err(SquareError::OutOfBoundsError);
        }
        Ok(self.line_total(line))
    }

    /// The values of `line`, one at a time.
    fn line_iter<'a>(&'a self, line: &SquareLine) -> (r: SquareIter<'a>)
        requires
            self.wf(),
            line_valid(self.dim(), *line),
        ensures
            r.wf(),
            r.pos() == 0,
            r.values() == line_values(self@, self.dim(), *line),
    {
        match line {
            SquareLine::Row(r) => self.row_iter(*r),
            SquareLine::Col(c) => self.col_iter(*c),
            SquareLine::Diag(d) => self.diag(d),
        }
    }

    /// The values of row `r`, left to right.
    fn row_iter<'a>(&'a self, r: usize) -> (it: SquareIter<'a>)
        requires
            self.wf(),
            r < self.dim(),
        ensures
            it.wf(),
            it.pos() == 0,
            it.values() == line_values(self@, self.dim(), SquareLine::Row(r)),
    {
        proof {
            lemma_line_cells(self.dim(), SquareLine::Row(r));
            lemma_order_bounds(self.dim(), self@.len());
        }
        assert((r as nat) * self.dim() < self@.len());
        let it = SquareIter { square: self, start: r * self.a, jump: 1, i: 0 };
        assert forall|k: int| 0 <= k < self.a implies it.start + #[trigger] (k * it.jump) < self@.len() by {
            assert(k * line_stride(self.dim() as int, SquareLine::Row(r)) == k * it.jump);
        }
        assert(it.values() =~= line_values(self@, self.dim(), SquareLine::Row(r)));
        it
    }

    /// The values of column `c`, top to bottom.
    fn col_iter<'a>(&'a self, c: usize) -> (it: SquareIter<'a>)
        requires
            self.wf(),
            c < self.dim(),
        ensures
            it.wf(),
            it.pos() == 0,
            it.values() == line_values(self@, self.dim(), SquareLine::Col(c)),
    {
        proof {
            lemma_line_cells(self.dim(), SquareLine::Col(c));
            lemma_order_bounds(self.dim(), self@.len());
        }
        let it = SquareIter { square: self, start: c, jump: self.a, i: 0 };
        assert forall|k: int| 0 <= k < self.a implies it.start + #[trigger] (k * it.jump) < self@.len() by {
            assert(k * line_stride(self.dim() as int, SquareLine::Col(c)) == k * it.jump);
        }
        assert(it.values() =~= line_values(self@, self.dim(), SquareLine::Col(c)));
        it
    }

    /// The values of diagonal `d`, top to bottom.
    pub fn diag<'a>(&'a self, d: &Diagonal) -> (it: SquareIter<'a>)
        requires
            self.wf(),
        ensures
            it.wf(),
            it.pos() == 0,
            it.values() == line_values(self@, self.dim(), SquareLine::Diag(*d)),
    {
        proof {
            lemma_line_cells(self.dim(), SquareLine::Diag(*d));
            lemma_order_bounds(self.dim(), self@.len());
        }
        let it = match d {
            Diagonal::First => SquareIter { square: self, start: 0, jump: self.a + 1, i: 0 },
            Diagonal::Second => {
                if self.a == 0 {
                    SquareIter { square: self, start: 0, jump: 0, i: 0 }
                } else {
                    SquareIter { square: self, start: self.a - 1, jump: self.a - 1, i: 0 }
                }
            },
        };
        assert forall|k: int| 0 <= k < self.a implies it.start + #[trigger] (k * it.jump) < self@.len() by {
            assert(k * line_stride(self.dim() as int, SquareLine::Diag(*d)) == k * it.jump);
        }
        assert(it.values() =~= line_values(self@, self.dim(), SquareLine::Diag(*d)));
        it
    }

    /// The sum of the values on `line`.
    fn line_total(&self, line: &SquareLine) -> (r: u128)
        requires
            self.wf(),
            line_valid(self.dim(), *line),
        ensures
            r == line_sum(self@, self.dim(), *line),
    {
        proof {
            lemma_order_bounds(self.dim(), self@.len());
        }
        let mut it = self.line_iter(line);
        let ghost vals = it.values();
        let mut acc: u128 = 0;
        loop
            invariant
                it.wf(),
                it.values() == vals,
                vals == line_values(self@, self.dim(), *line),
                vals.len() == self.dim(),
                self.dim() < 0x1_0000_0000,
                it.pos() <= vals.len(),
                acc == seq_sum(vals.take(it.pos() as int)),
                acc <= it.pos() * 0xffff_ffff_ffff_ffff,
            decreases vals.len() - it.pos(),
        {
            let ghost p = it.pos();
            match it.next() {
                Some(v) => {
                    proof {
                        lemma_prefix_sum(vals, p as int);
                        assert(acc + v <= (p + 1) * 0xffff_ffff_ffff_ffff) by (nonlinear_arith)
                            requires
                                acc <= p * 0xffff_ffff_ffff_ffff,
                                v <= 0xffff_ffff_ffff_ffff,
                        ;
                        assert((p + 1) * 0xffff_ffff_ffff_ffff <= 0x1_0000_0000 * 0xffff_ffff_ffff_ffff) by (nonlinear_arith)
                            requires
                                p + 1 <= 0x1_0000_0000,
                        ;
                    }
                    acc = acc + v as u128;
                },
                None => {
                    assert(vals.take(p as int) =~= vals);
                    return acc;
                },
            }
        }
    }

    /// Whether every row, every column and both diagonals have the same sum.
    pub fn is_magic(&self) -> (r: bool)
        requires
            self.wf(),
        ensures
            r == magic(self@, self.dim()),
    {
        proof {
            lemma_order_bounds(self.dim(), self@.len());
            lemma_lines_valid(self.dim());
        }
        let ghost a = self.dim();
        let mut lines = LineIter::new(self.a);
        let target = match lines.next() {
            Some(line) => self.line_total(&line),
            None => return true,
        };
        loop
            invariant
                self.wf(),
                a == self.dim(),
                lines.wf(),
                lines.order() == a,
                1 <= lines.pos(),
                forall|k: int| 0 <= k < line_count(a) ==> line_valid(a, #[trigger] line_at(a, k)),
                target == line_sum(self@, a, line_at(a, 0)),
                forall|k: int| 0 <= k < lines.pos() ==> #[trigger] line_sum(self@, a, line_at(a, k)) == target,
            decreases line_count(a) - lines.pos(),
        {
            let ghost k = lines.pos();
            match lines.next() {
                Some(line) => {
                    if self.line_total(&line) != target {
                        assert(line_sum(self@, a, line_at(a, k as int)) != line_sum(self@, a, line_at(a, 0)));
                        return false;
                    }
                },
                None => {
                    return true;
                },
            }
        }
    }

    /// The magic constant `a * (a * a + 1) / 2` of a square of this order
    /// that holds each of `1 ..= a * a` once.
    pub fn get_expected_sum(&self) -> (r: u128)
        requires
            self.wf(),
        ensures
            r == magic_constant(self.dim()),
    {
        proof {
            lemma_order_bounds(self.dim(), self@.len());
            let a = self.dim();
            assert(a * a < 0x1_0000_0000 * 0x1_0000_0000) by (nonlinear_arith)
                requires
                    a < 0x1_0000_0000,
            ;
            assert(a * (a * a + 1) <= 0x1_0000_0000 * 0x1_0000_0000 * 0x1_0000_0000) by (nonlinear_arith)
                requires
                    a < 0x1_0000_0000,
                    a * a < 0x1_0000_0000 * 0x1_0000_0000,
            ;
        }
        let a = self.a as u128;
        a * (a * a + 1) / 2
    }

    /// The value in column `x` of row `y`; refused with `OutOfBoundsError`
    /// outside the square.
    pub fn get(&self, x: usize, y: usize) -> (r: Result<usize, SquareError>)
        requires
            self.wf(),
        ensures
            r is Ok <==> x < self.dim() && y < self.dim(),
            r matches Ok(v) ==> v == self@[y * self.dim() + x],
            r matches Err(e) ==> e == SquareError::OutOfBoundsError,
    {
        if x >= self.a || y >= self.a {
            return Err(SquareError::OutOfBoundsError);
        }
        proof {
            lemma_cell_index(self.dim(), x as nat, y as nat);
        }
        Ok(self.data[y * self.a + x])
    }

    /// Overwrites the value in column `x` of row `y`; refused with
    /// `OutOfBoundsError`, and nothing changed, outside the square.
    pub fn set(&mut self, x: usize, y: usize, value: usize) -> (r: Result<(), SquareError>)
        requires
            old(self).wf(),
        ensures
            final(self).wf(),
            final(self).dim() == old(self).dim(),
            r is Ok <==> x < old(self).dim() && y < old(self).dim(),
            r is Ok ==> final(self)@ == old(self)@.update(y * old(self).dim() + x, value),
            r matches Err(e) ==> e == SquareError::OutOfBoundsError && final(self)@ == old(self)@,
    {
        if x >= self.a || y >= self.a {
            return Err(SquareError::OutOfBoundsError);
        }
        proof {
            lemma_cell_index(self.dim(), x as nat, y as nat);
        }
        let i = y * self.a + x;
        self.data.set(i, value);
        Ok(())
    }

    /// Completes `data`, all rows of a square but the last, by the first
    /// assignment of the digits `1 ..= 9` to the missing cells, in the order
    /// of [`search_digits`], that makes the square magic. Refused with
    /// `ShapeError` unless `data` has `a * (a - 1)` values for some `a >= 1`,
    /// and `NoSolution` when no assignment is magic.
    pub fn try_new(data: Vec<usize>) -> (r: Result<Square, SquareError>)
        requires
            data@.len() <= usize::MAX / 2,
        ensures
            r == Err::<Square, SquareError>(SquareError::ShapeError) <==> !has_completion_order(data@.len()),
            r != Err::<Square, SquareError>(SquareError::OutOfBoundsError),
            r matches Ok(s) ==> s.wf() && s.dim() == completion_order(data@.len()) && exists|t: nat|
                first_magic_completion(data@, s.dim(), t) && s@ == #[trigger] completion(data@, s.dim(), t),
            r == Err::<Square, SquareError>(SquareError::NoSolution) <==> has_completion_order(data@.len())
                && no_magic_completion(data@, completion_order(data@.len())),
    {
        let k = data.len();
        let mut a: usize = 1;
        loop
            invariant
                1 <= a <= k + 1,
                k <= usize::MAX / 2,
                a == 1 || (a - 1) * (a - 2) < k,
            ensures
                1 <= a <= k + 1,
                a == 1 || (a - 1) * (a - 2) < k,
                a * (a - 1) >= k,
            decreases k + 1 - a,
        {
            proof {
                lemma_product_bound(a as nat, k as nat);
            }
            if (a as u128) * (a as u128 - 1) >= k as u128 {
                break;
            }
            proof {
                if a >= 2 {
                    assert(a <= a * (a - 1)) by (nonlinear_arith)
                        requires
                            a >= 2,
                    ;
                }
            }
            a = a + 1;
        }
        proof {
            lemma_completion_order(a as nat, k as nat);
            lemma_product_bound(a as nat, k as nat);
        }
        if (a as u128) * (a as u128 - 1) != k as u128 {
            return Err(SquareError::ShapeError);
        }
        Square::try_complete(&data, a)
    }

    /// The search of [`Square::try_new`] for a square of order `a`.
    fn try_complete(incomplete_data: &Vec<usize>, a: usize) -> (r: Result<Square, SquareError>)
        requires
            1 <= a,
            a * (a - 1) == incomplete_data@.len(),
            incomplete_data@.len() <= usize::MAX / 2,
        ensures
            r matches Ok(s) ==> s.wf() && s.dim() == a && exists|t: nat|
                first_magic_completion(incomplete_data@, a as nat, t) && s@ == #[trigger] completion(incomplete_data@, a as nat, t),
            r matches Err(e) ==> e == SquareError::NoSolution && no_magic_completion(incomplete_data@, a as nat),
    {
        let ghost prefix = incomplete_data@;
        let k = incomplete_data.len();
        proof {
            if a >= 2 {
                assert(a <= a * (a - 1)) by (nonlinear_arith)
                    requires
                        a >= 2,
                ;
            }
            assert(a * a == a * (a - 1) + a) by (nonlinear_arith);
        }
        let n = k + a;
        let ghost m = a as nat;
        let mut try_data = incomplete_data.clone();
        let mut i: usize = 0;
        while i < a
            invariant
                i <= a,
                try_data@ == prefix + ones(i as nat),
            decreases a - i,
        {
            try_data.push(1);
            proof {
                assert(try_data@ =~= prefix + ones(i as nat + 1));
            }
            i = i + 1;
        }
        proof {
            lemma_search_start(m);
            lemma_pow9_add(0, m);
            assert(try_data@ =~= completion(prefix, a as nat, 0));
        }
        let mut square = Square { a, data: try_data };
        let ghost mut t: nat = 0;
        loop
            invariant
                square.wf(),
                square.dim() == a,
                prefix == incomplete_data@,
                n == k + a,
                n == a * a,
                k == prefix.len(),
                m == a,
                m == (a * a - prefix.len()) as nat,
                square@ == completion(prefix, a as nat, t),
                t < pow9(m),
                forall|u: nat| u < t ==> !magic(#[trigger] completion(prefix, a as nat, u), a as nat),
            decreases pow9(m) - t,
        {
            if square.is_magic() {
                assert(first_magic_completion(prefix, a as nat, t));
                return Ok(square);
            }
            let mut cur: usize = k;
            let ghost t0: nat = t;
            let ghost mut q: nat = t;
            let ghost mut j: nat = 0;
            proof {
                assert(pow9(0) == 1);
                assert(square@.subrange(0, k as int) =~= prefix);
                assert(square@.subrange(k as int, k as int) =~= ones(0));
                assert(square@.subrange(k as int, n as int) =~= search_digits(t, m));
                assert(search_digits(t + 1, m) =~= ones(0) + search_digits(t + 1, m));
            }
            loop
                invariant_except_break
                    t == t0,
                    !magic(completion(prefix, a as nat, t), a as nat),
                    cur == k + j,
                    j <= m,
                    square@.subrange(0, k as int) == prefix,
                    square@.subrange(k as int, cur as int) == ones(j),
                    square@.subrange(cur as int, n as int) == search_digits(q, (m - j) as nat),
                    search_digits(t + 1, m) == ones(j) + search_digits(q + 1, (m - j) as nat),
                    t + 1 == (q + 1) * pow9(j),
                    q < pow9((m - j) as nat),
                invariant
                    square.wf(),
                    square.dim() == a,
                    prefix == incomplete_data@,
                    n == k + a,
                    n == a * a,
                    k == prefix.len(),
                    m == a,
                    m == (a * a - prefix.len()) as nat,
                    square@.len() == n,
                    t < pow9(m),
                    forall|u: nat| u < t ==> !magic(#[trigger] completion(prefix, a as nat, u), a as nat),
                ensures
                    t == t0 + 1,
                    square@ == completion(prefix, a as nat, t),
                decreases m - j,
            {
                if cur == n {
                    proof {
                        assert(j == m);
                        assert(pow9(0) == 1);
                        assert(q == 0);
                        assert((q + 1) * pow9(j) == pow9(j)) by (nonlinear_arith)
                            requires
                                q == 0,
                        ;
                        assert forall|u: nat| u < pow9(m) implies !magic(#[trigger] completion(prefix, a as nat, u), a as nat) by {
                            if u < t {
                            }
                        }
                    }
                    return Err(SquareError::NoSolution);
                }
                let ghost r = (m - j) as nat;
                let ghost before = square@;
                proof {
                    lemma_digits_step(q, r);
                    let tail = search_digits(q / 9, (r - 1) as nat);
                    assert(before.subrange(cur as int, n as int) == seq![(1 + q % 9) as usize] + tail);
                    assert(before[cur as int] == before.subrange(cur as int, n as int)[0]);
                    assert(before.subrange(cur + 1, n as int) =~= before.subrange(cur as int, n as int).subrange(1, (n - cur) as int));
                    assert((seq![(1 + q % 9) as usize] + tail).subrange(1, (n - cur) as int) =~= tail);
                }
                let v = square.data[cur] + 1;
                if v > 9 {
                    square.data.set(cur, 1);
                    proof {
                        lemma_carry(t + 1, q, j, r);
                        assert forall|i: int| k <= i < cur + 1 implies square@[i] == 1 by {
                            if i < cur {
                                assert(before.subrange(k as int, cur as int)[i - k] == ones(j)[i - k]);
                            }
                        }
                        assert(square@.subrange(0, k as int) =~= prefix);
                        assert(square@.subrange(k as int, cur + 1) =~= ones(j + 1));
                        assert(square@.subrange(cur + 1, n as int) =~= before.subrange(cur + 1, n as int));
                        assert(ones(j) + search_digits(q + 1, r) =~= ones(j + 1) + search_digits(q / 9 + 1, (r - 1) as nat));
                        q = q / 9;
                        j = j + 1;
                    }
                    cur = cur + 1;
                } else {
                    square.data.set(cur, v);
                    proof {
                        lemma_no_carry(t + 1, q, j, r, m);
                        assert(square@.subrange(cur as int, n as int) =~= seq![v] + before.subrange(cur + 1, n as int));
                        assert(square@ =~= prefix + (ones(j) + search_digits(q + 1, r))) by {
                            assert(square@.subrange(0, k as int) =~= prefix);
                            assert(square@.subrange(k as int, cur as int) =~= ones(j));
                            assert(square@ =~= square@.subrange(0, k as int) + square@.subrange(k as int, cur as int)
                                + square@.subrange(cur as int, n as int));
                        }
                        t = t + 1;
                    }
                    break;
                }
            }
        }
    }

    /// The side length.
    pub fn order(&self) -> (r: usize)
        ensures
            r == self.dim(),
    {
        self.a
    }
}

/// Each cell of a line of a square of order `a` lies in the square.
proof fn lemma_line_cells(a: nat, line: SquareLine)
    requires
        line_valid(a, line),
    ensures
        forall|i: int|
            0 <= i < a ==> 0 <= line_start(a as int, line) + #[trigger] (i * line_stride(a as int, line)) < a * a,
{
    assert forall|i: int| 0 <= i < a implies 0 <= line_start(a as int, line) + #[trigger] (i * line_stride(a as int, line)) < a * a by {
        match line {
            SquareLine::Row(r) => {
                assert(0 <= r * a + i * 1 < a * a) by (nonlinear_arith)
                    requires
                        0 <= r < a,
                        0 <= i < a,
                ;
            },
            SquareLine::Col(c) => {
                assert(0 <= c + i * a < a * a) by (nonlinear_arith)
                    requires
                        0 <= c < a,
                        0 <= i < a,
                ;
            },
            SquareLine::Diag(Diagonal::First) => {
                assert(0 <= 0 + i * (a + 1) < a * a) by (nonlinear_arith)
                    requires
                        0 <= i < a,
                ;
            },
            SquareLine::Diag(Diagonal::Second) => {
                assert(0 <= (a - 1) + i * (a - 1) < a * a) by (nonlinear_arith)
                    requires
                        0 <= i < a,
                ;
            },
        }
    }
}

/// The order of a well-formed square is small enough for its strides and
/// row starts to fit in a `usize`.
proof fn lemma_order_bounds(a: nat, len: nat)
    requires
        a * a == len,
        len <= usize::MAX,
    ensures
        a < 0x1_0000_0000,
        a < usize::MAX,
        2 * a + 2 <= usize::MAX,
        forall|r: nat| r < a ==> #[trigger] (r * a) < len,
{
    lemma_root_bound(a, len);
    lemma_square_grows(a);
    if a >= 2 {
        assert(a * a >= 2 * a) by (nonlinear_arith)
            requires
                a >= 2,
        ;
    }
    if a >= 3 {
        assert(a * a >= 2 * a + 2) by (nonlinear_arith)
            requires
                a >= 3,
        ;
    }
    assert forall|r: nat| r < a implies #[trigger] (r * a) < len by {
        assert(r * a < a * a) by (nonlinear_arith)
            requires
                r < a,
        ;
    }
}

/// The cell in column `x` of row `y` lies in the square.
proof fn lemma_cell_index(a: nat, x: nat, y: nat)
    requires
        x < a,
        y < a,
    ensures
        y * a + x < a * a,
{
    assert(y * a + x < a * a) by (nonlinear_arith)
        requires
            x < a,
            y < a,
    ;
}

proof fn lemma_square_grows(a: nat)
    ensures
        a <= a * a || a == 0,
        (a + 1) * (a + 1) == a * a + 2 * a + 1,
{
    assert(a <= a * a || a == 0) by (nonlinear_arith);
    assert((a + 1) * (a + 1) == a * a + 2 * a + 1) by (nonlinear_arith);
}

proof fn lemma_square_bound(x: nat, m: nat)
    requires
        x <= m,
    ensures
        x * x <= m * m,
{
    assert(x * x <= m * m) by (nonlinear_arith)
        requires
            x <= m,
    ;
}

proof fn lemma_root_bound(x: nat, n: nat)
    requires
        x * x <= n,
        n <= usize::MAX,
    ensures
        x < 0x1_0000_0000,
{
    if x >= 0x1_0000_0000 {
        lemma_square_bound(0x1_0000_0000, x);
    }
}

/// A natural number has one square root at most.
proof fn lemma_root_unique(a: nat, b: nat)
    requires
        a * a == b * b,
    ensures
        a == b,
{
    if a < b {
        assert(a * a < b * b) by (nonlinear_arith)
            requires
                a < b,
        ;
    } else if b < a {
        assert(b * b < a * a) by (nonlinear_arith)
            requires
                b < a,
        ;
    }
}

/// With `a * a <= n < (a + 1) * (a + 1)`, `n` is a square exactly when it is `a * a`.
proof fn lemma_between_squares(a: nat, n: nat)
    requires
        a * a <= n,
        n < (a + 1) * (a + 1),
    ensures
        is_perfect_square(n) <==> a * a == n,
{
    if is_perfect_square(n) {
        let b = choose|b: nat| #[trigger] (b * b) == n;
        if b <= a {
            assert(b * b <= a * a) by (nonlinear_arith)
                requires
                    b <= a,
            ;
        } else {
            assert(b * b >= (a + 1) * (a + 1)) by (nonlinear_arith)
                requires
                    b >= a + 1,
            ;
        }
    }
}

} // verus!
