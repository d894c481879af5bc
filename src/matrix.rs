use vstd::prelude::*;

use crate::error::MatrixError;
use crate::task::{arrived_idx, arrived_value, assemble, complete, assign_worker, run_task, MsgInput, MsgOutput};
use crate::vector::{dot, dot_fits, dot_prefix, Vector};

verus! {

/// A dense matrix stored row-major: element `(i, j)` is `data[i * col + j]`.
pub struct Matrix {
    pub data: Vec<i64>,
    pub row: usize,
    pub col: usize,
}

impl Matrix {
    /// The buffer holds exactly `row * col` elements.
    pub open spec fn wf(&self) -> bool {
        self.data@.len() == self.row * self.col
    }

    /// Row `i`, a contiguous run of `col` elements.
    pub open spec fn row_of(&self, i: int) -> Seq<i64> {
        self.data@.subrange(i * self.col, i * self.col + self.col)
    }

    /// Column `j`, gathered with stride `col`.
    pub open spec fn col_of(&self, j: int) -> Seq<i64> {
        Seq::new(self.row as nat, |t: int| self.data@[t * self.col + j])
    }

    /// Wraps a row-major buffer; the caller provides `row * col` elements.
    pub fn new(data: Vec<i64>, row: usize, col: usize) -> (r: Matrix)
        requires
            data@.len() == row * col,
        ensures
            r.data@ == data@,
            r.row == row,
            r.col == col,
            r.wf(),
    {
        Matrix { data, row, col }
    }

    /// An owned copy of row `i`.
    pub fn row_vector(&self, i: usize) -> (r: Vector)
        requires
            self.wf(),
            i < self.row,
        ensures
            r@ == self.row_of(i as int),
    {
        let len: usize = self.data.len();
        proof {
            lemma_row_in_bounds(i as int, self.row as int, self.col as int);
        }
        let base: usize = i * self.col;
        let mut v: Vec<i64> = Vec::new();
        let mut t: usize = 0;
        while t < self.col
            invariant
                self.wf(),
                base == i * self.col,
                base + self.col <= len,
                len == self.data@.len(),
                t <= self.col,
                v@ == self.data@.subrange(base as int, base + t),
            decreases self.col - t,
        {
            v.push(self.data[base + t]);
            t = t + 1;
            assert(v@ =~= self.data@.subrange(base as int, base + t));
        }
        Vector::new(v)
    }

    /// An owned copy of column `j`.
    pub fn col_vector(&self, j: usize) -> (r: Vector)
        requires
            self.wf(),
            j < self.col,
        ensures
            r@ == self.col_of(j as int),
    {
        let len: usize = self.data.len();
        let mut v: Vec<i64> = Vec::new();
        let mut t: usize = 0;
        while t < self.row
            invariant
                self.wf(),
                len == self.data@.len(),
                j < self.col,
                t <= self.row,
                v@.len() == t,
                forall|q: int| 0 <= q < t ==> v@[q] == self.data@[q * self.col + j],
            decreases self.row - t,
        {
            proof {
                lemma_entry_in_bounds(t as int, j as int, self.row as int, self.col as int);
            }
            v.push(self.data[t * self.col + j]);
            t = t + 1;
        }
        assert(v@ =~= self.col_of(j as int));
        Vector::new(v)
    }
}

/// Cell `(i, j)` of the product of `a` and `b`: row `i` of `a` against
/// column `j` of `b`.
pub open spec fn cell(a: Matrix, b: Matrix, i: int, j: int) -> int {
    dot(a.row_of(i), b.col_of(j))
}

/// The product of `a` and `b` fits in memory and no cell overflows `i64`
/// while it is summed.
pub open spec fn product_fits(a: Matrix, b: Matrix) -> bool {
    &&& a.row * b.col <= usize::MAX
    &&& forall|i: int, j: int|
        0 <= i < a.row && 0 <= j < b.col ==> #[trigger] dot_fits(a.row_of(i), b.col_of(j))
}

/// `m` is the product of `a` and `b`, laid out row-major.
pub open spec fn is_product(a: Matrix, b: Matrix, m: Matrix) -> bool {
    &&& m.row == a.row
    &&& m.col == b.col
    &&& m.wf()
    &&& forall|k: int|
        0 <= k < m.data@.len() ==> #[trigger] m.data@[k] == cell(a, b, k / m.col as int, k % m.col as int)
}

/// The product agrees with the triple-loop definition: cell `(i, j)` of a
/// product, stored at `i * col + j`, is row `i` of `a` against column `j` of
/// `b`, the sum of `a[i][t] * b[t][j]` over `t`.
pub proof fn lemma_product_cell(a: Matrix, b: Matrix, m: Matrix, i: int, j: int)
    requires
        a.wf(),
        b.wf(),
        is_product(a, b, m),
        0 <= i < a.row,
        0 <= j < b.col,
    ensures
        m.data@[i * b.col + j] == cell(a, b, i, j),
        cell(a, b, i, j) == dot_prefix(a.row_of(i), b.col_of(j), a.col as int),
        forall|t: int|
            0 <= t < a.col ==> #[trigger] a.row_of(i)[t] == a.data@[i * a.col + t],
        forall|t: int| 0 <= t < b.row ==> #[trigger] b.col_of(j)[t] == b.data@[t * b.col + j],
{
    lemma_entry_in_bounds(i, j, a.row as int, b.col as int);
    lemma_row_in_bounds(i, a.row as int, a.col as int);
    let k = i * b.col + j;
    vstd::arithmetic::div_mod::lemma_fundamental_div_mod_converse(k, b.col as int, i, j);
    assert(m.data@[k] == cell(a, b, k / m.col as int, k % m.col as int));
}

/// Row `i` of an `r x c` buffer lies within it.
pub proof fn lemma_row_in_bounds(i: int, r: int, c: int)
    requires
        0 <= i < r,
        0 <= c,
    ensures
        0 <= i * c,
        i * c + c <= r * c,
{
    assert(0 <= i * c) by (nonlinear_arith)
        requires
            0 <= i,
            0 <= c,
    ;
    assert(i * c + c <= r * c) by (nonlinear_arith)
        requires
            i + 1 <= r,
            0 <= c,
    ;
}

/// Element `(t, j)` of an `r x c` buffer lies within it.
pub proof fn lemma_entry_in_bounds(t: int, j: int, r: int, c: int)
    requires
        0 <= t < r,
        0 <= j < c,
    ensures
        0 <= t * c + j < r * c,
{
    lemma_row_in_bounds(t, r, c);
}

/// A linear index below `r * c` names row `k / c` and column `k % c`.
pub proof fn lemma_cell_of_index(k: int, r: int, c: int)
    requires
        0 <= k < r * c,
        0 <= r,
        0 <= c,
    ensures
        0 < c,
        0 <= k / c < r,
        0 <= k % c < c,
        (k / c) * c + k % c == k,
{
    if c == 0 {
        assert(r * c == 0) by (nonlinear_arith)
            requires
                c == 0,
        ;
    }
    vstd::arithmetic::div_mod::lemma_fundamental_div_mod(k, c);
    vstd::arithmetic::div_mod::lemma_mod_bound(k, c);
    vstd::arithmetic::div_mod::lemma_div_pos_is_pos(k, c);
    assert((k / c) * c == c * (k / c)) by (nonlinear_arith);
    if k / c >= r {
        assert(c * (k / c) >= c * r) by (nonlinear_arith)
            requires
                k / c >= r,
                c > 0,
        ;
        assert(r * c == c * r) by (nonlinear_arith);
    }
}

/// Workers in the pool that `multiply` schedules its cells on.
pub const NUM_THREADS: usize = 4;

/// Products are unique: two matrices that are both the product of `a` and
/// `b` are equal, whatever pool size or arrival order produced them.
pub proof fn lemma_product_unique(a: Matrix, b: Matrix, m1: Matrix, m2: Matrix)
    requires
        is_product(a, b, m1),
        is_product(a, b, m2),
    ensures
        m1.row == m2.row,
        m1.col == m2.col,
        m1.data@ == m2.data@,
{
    assert(m1.data@ =~= m2.data@);
}

/// Cell `k` has been handed out once worker `w` has drained its queue up to
/// (not including) cell `upto`: earlier workers took every cell of theirs.
pub open spec fn dispatched(k: int, workers: int, w: int, upto: int) -> bool {
    k % workers < w || (k % workers == w && k < upto)
}

/// The `q`-th result carries the product's value for the cell it names.
pub open spec fn settled(a: Matrix, b: Matrix, results: Seq<Option<MsgOutput>>, q: int) -> bool {
    let k = arrived_idx(results, q);
    &&& results[q] is Some
    &&& 0 <= k < a.row * b.col
    &&& arrived_value(results, q) == cell(a, b, k / b.col as int, k % b.col as int)
}

/// Some result names cell `s`.
pub open spec fn names(results: Seq<Option<MsgOutput>>, s: int) -> bool {
    exists|q: int| 0 <= q < results.len() && #[trigger] arrived_idx(results, q) == s
}

/// Distinct results, all below `n`, that name every cell below `n` number
/// exactly `n`.
proof fn lemma_cover_count(results: Seq<Option<MsgOutput>>, n: int)
    requires
        0 <= n,
        forall|q: int| 0 <= q < results.len() ==> 0 <= #[trigger] arrived_idx(results, q) < n,
        forall|p: int, q: int|
            0 <= p < q < results.len() ==> #[trigger] arrived_idx(results, p) != #[trigger] arrived_idx(
                results,
                q,
            ),
        forall|s: int| 0 <= s < n ==> #[trigger] names(results, s),
    ensures
        results.len() == n,
{
    let idxs = Seq::new(results.len(), |q: int| arrived_idx(results, q));
    assert(idxs.no_duplicates()) by {
        assert forall|i: int, j: int| 0 <= i < idxs.len() && 0 <= j < idxs.len() && i != j implies idxs[i]
            != idxs[j] by {
            if i < j {
                assert(arrived_idx(results, i) != arrived_idx(results, j));
            } else {
                assert(arrived_idx(results, j) != arrived_idx(results, i));
            }
        }
    }
    idxs.unique_seq_to_set();
    let all = vstd::set_lib::set_int_range(0, n);
    vstd::set_lib::lemma_int_range(0, n);
    assert forall|x: int| idxs.to_set().contains(x) <==> all.contains(x) by {
        if idxs.to_set().contains(x) {
            let q = choose|q: int| 0 <= q < idxs.len() && idxs[q] == x;
            assert(0 <= arrived_idx(results, q) < n);
        }
        if all.contains(x) {
            assert(names(results, x));
            let q = choose|q: int| 0 <= q < results.len() && #[trigger] arrived_idx(results, q) == x;
            assert(idxs[q] == x);
        }
    }
    assert(idxs.to_set() =~= all);
}

/// The product of `a` and `b`, or `DimensionMismatch` when `a.col != b.row`
/// (checked before any task is built). The cells are scheduled on a pool of
/// `NUM_THREADS` workers; see `multiply_with_workers`.
pub fn multiply(a: &Matrix, b: &Matrix) -> (r: Result<Matrix, MatrixError>)
    requires
        a.wf(),
        b.wf(),
        a.col == b.row ==> product_fits(*a, *b),
    ensures
        r is Err <==> a.col != b.row,
        r matches Err(e) ==> e == MatrixError::DimensionMismatch,
        r matches Ok(m) ==> is_product(*a, *b, m),
{
    multiply_with_workers(a, b, NUM_THREADS)
}

/// The product of `a` and `b`, with the cells dealt round-robin to
/// `workers` queues (cell `k` to queue `k % workers`). Each queue is drained
/// in turn on the calling thread, so results arrive grouped by worker rather
/// than in cell order, and are assembled by the cell each one names.
pub fn multiply_with_workers(a: &Matrix, b: &Matrix, workers: usize) -> (r: Result<
    Matrix,
    MatrixError,
>)
    requires
        a.wf(),
        b.wf(),
        workers > 0,
        a.col == b.row ==> product_fits(*a, *b),
    ensures
        r is Err <==> a.col != b.row,
        r matches Err(e) ==> e == MatrixError::DimensionMismatch,
        r matches Ok(m) ==> is_product(*a, *b, m),
{
    if a.col != b.row {
        return Err(MatrixError::DimensionMismatch);
    }
    let n: usize = a.row * b.col;
    let mut results: Vec<Option<MsgOutput>> = Vec::new();
    let mut w: usize = 0;
    while w < workers
        invariant
            a.wf(),
            b.wf(),
            a.col == b.row,
            product_fits(*a, *b),
            workers > 0,
            n == a.row * b.col,
            w <= workers,
            forall|q: int| 0 <= q < results@.len() ==> #[trigger] settled(*a, *b, results@, q),
            forall|q: int|
                0 <= q < results@.len() ==> dispatched(
                    #[trigger] arrived_idx(results@, q),
                    workers as int,
                    w as int,
                    0,
                ),
            forall|p: int, q: int|
                0 <= p < q < results@.len() ==> #[trigger] arrived_idx(results@, p) != #[trigger] arrived_idx(
                    results@,
                    q,
                ),
            forall|s: int|
                0 <= s < n && dispatched(s, workers as int, w as int, 0) ==> #[trigger] names(
                    results@,
                    s,
                ),
        decreases workers - w,
    {
        let mut k: usize = 0;
        while k < n
            invariant
                a.wf(),
                b.wf(),
                a.col == b.row,
                product_fits(*a, *b),
                workers > 0,
                n == a.row * b.col,
                w < workers,
                k <= n,
                forall|q: int| 0 <= q < results@.len() ==> #[trigger] settled(*a, *b, results@, q),
                forall|q: int|
                    0 <= q < results@.len() ==> dispatched(
                        #[trigger] arrived_idx(results@, q),
                        workers as int,
                        w as int,
                        k as int,
                    ),
                forall|p: int, q: int|
                    0 <= p < q < results@.len() ==> #[trigger] arrived_idx(results@, p)
                        != #[trigger] arrived_idx(results@, q),
                forall|s: int|
                    0 <= s < n && dispatched(s, workers as int, w as int, k as int) ==> #[trigger] names(
                        results@,
                        s,
                    ),
            decreases n - k,
        {
            let ghost before = results@;
            if assign_worker(k, workers) == w {
                proof {
                    lemma_cell_of_index(k as int, a.row as int, b.col as int);
                    lemma_row_in_bounds(k as int / b.col as int, a.row as int, a.col as int);
                    assert(dot_fits(a.row_of(k as int / b.col as int), b.col_of(k as int % b.col as int)));
                }
                let t = MsgInput::new(k, a.row_vector(k / b.col), b.col_vector(k % b.col));
                match run_task(t) {
                    Ok(o) => results.push(Some(o)),
                    Err(_) => results.push(None),
                }
                proof {
                    let last = before.len() as int;
                    assert(arrived_idx(results@, last) == k);
                    assert forall|q: int| 0 <= q < last implies #[trigger] settled(*a, *b, results@, q)
                        && arrived_idx(results@, q) != k by {
                        assert(results@[q] == before[q]);
                        assert(settled(*a, *b, before, q));
                        assert(dispatched(arrived_idx(before, q), workers as int, w as int, k as int));
                    }
                    assert(settled(*a, *b, results@, last));
                    assert forall|q: int| 0 <= q < results@.len() implies dispatched(
                        #[trigger] arrived_idx(results@, q),
                        workers as int,
                        w as int,
                        k + 1,
                    ) by {
                        if q < last {
                            assert(results@[q] == before[q]);
                            assert(dispatched(arrived_idx(before, q), workers as int, w as int, k as int));
                        }
                    }
                    assert forall|p: int, q: int| 0 <= p < q < results@.len() implies #[trigger] arrived_idx(
                        results@,
                        p,
                    ) != #[trigger] arrived_idx(results@, q) by {
                        assert(results@[p] == before[p]);
                        if q < last {
                            assert(results@[q] == before[q]);
                            assert(arrived_idx(before, p) != arrived_idx(before, q));
                        } else {
                            assert(settled(*a, *b, results@, p));
                        }
                    }
                    assert forall|s: int|
                        0 <= s < n && dispatched(s, workers as int, w as int, k + 1) implies #[trigger] names(
                        results@,
                        s,
                    ) by {
                        if s == k {
                            assert(arrived_idx(results@, last) == s);
                        } else {
                            assert(dispatched(s, workers as int, w as int, k as int));
                            assert(names(before, s));
                            let q = choose|q: int| 0 <= q < before.len() && #[trigger] arrived_idx(before, q) == s;
                            assert(results@[q] == before[q]);
                            assert(arrived_idx(results@, q) == s);
                        }
                    }
                }
            } else {
                proof {
                    assert forall|q: int| 0 <= q < results@.len() implies dispatched(
                        #[trigger] arrived_idx(results@, q),
                        workers as int,
                        w as int,
                        k + 1,
                    ) by {
                        assert(dispatched(arrived_idx(results@, q), workers as int, w as int, k as int));
                    }
                    assert forall|s: int|
                        0 <= s < n && dispatched(s, workers as int, w as int, k + 1) implies #[trigger] names(
                        results@,
                        s,
                    ) by {
                        assert(dispatched(s, workers as int, w as int, k as int));
                    }
                }
            }
            k = k + 1;
        }
        proof {
            assert forall|s: int|
                0 <= s < n && dispatched(s, workers as int, w + 1, 0) implies #[trigger] names(
                results@,
                s,
            ) by {
                assert(dispatched(s, workers as int, w as int, n as int));
            }
        }
        w = w + 1;
    }
    proof {
        assert forall|s: int| 0 <= s < n implies #[trigger] names(results@, s) by {
            vstd::arithmetic::div_mod::lemma_mod_bound(s, workers as int);
            assert(dispatched(s, workers as int, workers as int, 0));
        }
        assert forall|q: int| 0 <= q < results@.len() implies #[trigger] results@[q] is Some && 0
            <= arrived_idx(results@, q) < n by {
            assert(settled(*a, *b, results@, q));
        }
        lemma_cover_count(results@, n as int);
        assert(complete(results@, n as int));
    }
    let ghost arrived = results@;
    let m = match assemble(results, a.row, b.col) {
        Ok(m) => m,
        Err(e) => return Err(e),
    };
    assert forall|s: int| 0 <= s < m.data@.len() implies #[trigger] m.data@[s] == cell(
        *a,
        *b,
        s / m.col as int,
        s % m.col as int,
    ) by {
        assert(names(arrived, s));
        let q = choose|q: int| 0 <= q < arrived.len() && #[trigger] arrived_idx(arrived, q) == s;
        assert(m.data@[arrived_idx(arrived, q)] == arrived_value(arrived, q));
        assert(settled(*a, *b, arrived, q));
    }
    Ok(m)
}

} // verus!
