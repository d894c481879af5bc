use vstd::prelude::*;

use crate::error::MatrixError;
use crate::matrix::{lemma_cell_of_index, Matrix};
use crate::vector::{dot, dot_fits, dot_product, Vector};

verus! {

/// One unit of work: the output cell at linear position `idx`, with the row
/// and the column whose dot product it holds.
pub struct MsgInput {
    pub idx: usize,
    pub row: Vector,
    pub col: Vector,
}

/// The value computed for the output cell at `idx`.
pub struct MsgOutput {
    pub idx: usize,
    pub value: i64,
}

impl MsgInput {
    pub fn new(idx: usize, row: Vector, col: Vector) -> (r: MsgInput)
        ensures
            r.idx == idx,
            r.row@ == row@,
            r.col@ == col@,
    {
        MsgInput { idx, row, col }
    }
}

impl MsgOutput {
    pub fn new(idx: usize, value: i64) -> (r: MsgOutput)
        ensures
            r.idx == idx,
            r.value == value,
    {
        MsgOutput { idx, value }
    }
}

/// `t` is the task for linear cell `k` of the product of `a` and `b`.
pub open spec fn task_for(t: MsgInput, a: Matrix, b: Matrix, k: int) -> bool {
    &&& t.idx == k
    &&& t.row@ == a.row_of(k / b.col as int)
    &&& t.col@ == b.col_of(k % b.col as int)
}

/// One task per output cell, in row-major order, or `DimensionMismatch` when
/// `a.col != b.row`.
pub fn plan_tasks(a: &Matrix, b: &Matrix) -> (r: Result<Vec<MsgInput>, MatrixError>)
    requires
        a.wf(),
        b.wf(),
        a.col == b.row ==> a.row * b.col <= usize::MAX,
    ensures
        r is Err <==> a.col != b.row,
        r matches Err(e) ==> e == MatrixError::DimensionMismatch,
        r matches Ok(ts) ==> {
            &&& ts@.len() == a.row * b.col
            &&& forall|k: int| 0 <= k < ts@.len() ==> task_for(#[trigger] ts@[k], *a, *b, k)
        },
{
    if a.col != b.row {
        return Err(MatrixError::DimensionMismatch);
    }
    let n: usize = a.row * b.col;
    let mut tasks: Vec<MsgInput> = Vec::new();
    let mut k: usize = 0;
    while k < n
        invariant
            a.wf(),
            b.wf(),
            n == a.row * b.col,
            k <= n,
            tasks@.len() == k,
            forall|q: int| 0 <= q < k ==> task_for(#[trigger] tasks@[q], *a, *b, q),
        decreases n - k,
    {
        proof {
            lemma_cell_of_index(k as int, a.row as int, b.col as int);
        }
        let i: usize = k / b.col;
        let j: usize = k % b.col;
        let row = a.row_vector(i);
        let col = b.col_vector(j);
        tasks.push(MsgInput::new(k, row, col));
        k = k + 1;
    }
    Ok(tasks)
}

/// The worker that receives the task for cell `idx` when `workers` workers
/// share the cells round-robin.
pub fn assign_worker(idx: usize, workers: usize) -> (w: usize)
    requires
        workers > 0,
    ensures
        w == idx % workers,
        w < workers,
{
    idx % workers
}

/// What a worker computes for one task: the dot product of its row and its
/// column, tagged with the task's cell.
pub fn run_task(input: MsgInput) -> (r: Result<MsgOutput, MatrixError>)
    requires
        input.row@.len() == input.col@.len() ==> dot_fits(input.row@, input.col@),
    ensures
        r is Err <==> input.row@.len() != input.col@.len(),
        r matches Err(e) ==> e == MatrixError::DimensionMismatch,
        r matches Ok(o) ==> o.idx == input.idx && o.value == dot(input.row@, input.col@),
{
    let MsgInput { idx, row, col } = input;
    match dot_product(row, col) {
        Ok(value) => Ok(MsgOutput::new(idx, value)),
        Err(e) => Err(e),
    }
}

/// The cell named by the `k`-th result that arrived.
pub open spec fn arrived_idx(results: Seq<Option<MsgOutput>>, k: int) -> int {
    match results[k] {
        Some(o) => o.idx as int,
        None => -1,
    }
}

/// The value carried by the `k`-th result that arrived.
pub open spec fn arrived_value(results: Seq<Option<MsgOutput>>, k: int) -> i64 {
    match results[k] {
        Some(o) => o.value,
        None => 0,
    }
}

/// Exactly `n` results arrived, each carries a value, and they name every
/// cell below `n` once.
pub open spec fn complete(results: Seq<Option<MsgOutput>>, n: int) -> bool {
    &&& results.len() == n
    &&& forall|k: int| 0 <= k < n ==> #[trigger] results[k] is Some
    &&& forall|k: int| 0 <= k < n ==> 0 <= #[trigger] arrived_idx(results, k) < n
    &&& forall|j: int, k: int|
        0 <= j < k < n ==> #[trigger] arrived_idx(results, j) != #[trigger] arrived_idx(results, k)
}

/// `m` is the `row x col` matrix that holds, at each cell named by a result,
/// the value that result carries.
pub open spec fn assembled(results: Seq<Option<MsgOutput>>, row: int, col: int, m: Matrix) -> bool {
    &&& m.row == row
    &&& m.col == col
    &&& m.wf()
    &&& forall|k: int|
        0 <= k < results.len() ==> m.data@[#[trigger] arrived_idx(results, k)] == arrived_value(
            results,
            k,
        )
}

/// Results that name every cell below `n` once leave no cell unnamed.
pub proof fn lemma_complete_covers(results: Seq<Option<MsgOutput>>, n: int, s: int)
    requires
        complete(results, n),
        0 <= s < n,
    ensures
        exists|k: int| 0 <= k < n && #[trigger] arrived_idx(results, k) == s,
{
    let idxs = Seq::new(n as nat, |k: int| arrived_idx(results, k));
    assert(idxs.no_duplicates()) by {
        assert forall|i: int, j: int| 0 <= i < idxs.len() && 0 <= j < idxs.len() && i != j implies idxs[i]
            != idxs[j] by {
            if i < j {
                assert(arrived_idx(results, i) != arrived_idx(results, j));
            } else {
                assert(arrived_idx(results, j) != arrived_idx(results, i));
            }
        }
    }
    idxs.unique_seq_to_set();
    let all = vstd::set_lib::set_int_range(0, n);
    vstd::set_lib::lemma_int_range(0, n);
    assert(idxs.to_set().subset_of(all)) by {
        assert forall|x: int| idxs.to_set().contains(x) implies all.contains(x) by {
            let k = choose|k: int| 0 <= k < idxs.len() && idxs[k] == x;
            assert(0 <= arrived_idx(results, k) < n);
        }
    }
    vstd::set_lib::lemma_subset_equality(idxs.to_set(), all);
    assert(all.contains(s));
    assert(idxs.to_set().contains(s));
    let k = choose|k: int| 0 <= k < idxs.len() && idxs[k] == s;
    assert(arrived_idx(results, k) == s);
}

/// The order in which results arrive does not change the product: when the
/// same complete set of results arrives in two orders, the two assembled
/// matrices are equal.
pub proof fn lemma_assemble_order_independent(
    first: Seq<Option<MsgOutput>>,
    second: Seq<Option<MsgOutput>>,
    row: int,
    col: int,
    m1: Matrix,
    m2: Matrix,
)
    requires
        complete(first, row * col),
        second.len() == first.len(),
        forall|k: int| 0 <= k < first.len() ==> second.contains(#[trigger] first[k]),
        assembled(first, row, col, m1),
        assembled(second, row, col, m2),
    ensures
        m1.row == m2.row,
        m1.col == m2.col,
        m1.data@ == m2.data@,
{
    let n = row * col;
    assert forall|s: int| 0 <= s < n implies m1.data@[s] == m2.data@[s] by {
        lemma_complete_covers(first, n, s);
        let k1 = choose|k: int| 0 <= k < n && #[trigger] arrived_idx(first, k) == s;
        assert(second.contains(first[k1]));
        let k2 = choose|k: int| 0 <= k < second.len() && second[k] == first[k1];
        assert(arrived_idx(second, k2) == s);
        assert(m1.data@[arrived_idx(first, k1)] == arrived_value(first, k1));
        assert(m2.data@[arrived_idx(second, k2)] == arrived_value(second, k2));
    }
    assert(m1.data@ =~= m2.data@);
}

/// Builds the `row x col` output from results in whatever order they
/// arrived, writing each value at the cell it names. Fails with
/// `ChannelFailure` when a result is missing, repeats a cell, or names a
/// cell outside the output.
pub fn assemble(results: Vec<Option<MsgOutput>>, row: usize, col: usize) -> (r: Result<
    Matrix,
    MatrixError,
>)
    requires
        row * col <= usize::MAX,
    ensures
        r is Ok <==> complete(results@, row * col),
        r matches Err(e) ==> e == MatrixError::ChannelFailure,
        r matches Ok(m) ==> assembled(results@, row as int, col as int, m),
{
    let n: usize = row * col;
    if results.len() != n {
        return Err(MatrixError::ChannelFailure);
    }
    let mut data: Vec<i64> = Vec::new();
    let mut filled: Vec<bool> = Vec::new();
    let mut s: usize = 0;
    while s < n
        invariant
            s <= n,
            data@.len() == s,
            filled@.len() == s,
            forall|q: int| 0 <= q < s ==> !(#[trigger] filled@[q]),
        decreases n - s,
    {
        data.push(0);
        filled.push(false);
        s = s + 1;
    }
    let mut k: usize = 0;
    while k < n
        invariant
            n == row * col,
            results@.len() == n,
            k <= n,
            data@.len() == n,
            filled@.len() == n,
            forall|q: int| 0 <= q < k ==> #[trigger] results@[q] is Some,
            forall|q: int| 0 <= q < k ==> 0 <= #[trigger] arrived_idx(results@, q) < n,
            forall|p: int, q: int|
                0 <= p < q < k ==> #[trigger] arrived_idx(results@, p) != #[trigger] arrived_idx(
                    results@,
                    q,
                ),
            forall|s2: int|
                0 <= s2 < n ==> (#[trigger] filled@[s2] <==> exists|q: int|
                    0 <= q < k && #[trigger] arrived_idx(results@, q) == s2),
            forall|q: int|
                0 <= q < k ==> data@[#[trigger] arrived_idx(results@, q)] == arrived_value(
                    results@,
                    q,
                ),
        decreases n - k,
    {
        match &results[k] {
            None => {
                assert(!(results@[k as int] is Some));
                return Err(MatrixError::ChannelFailure);
            },
            Some(o) => {
                if o.idx >= n || filled[o.idx] {
                    proof {
                        assert(arrived_idx(results@, k as int) == o.idx);
                        if o.idx < n {
                            let q = choose|q: int|
                                0 <= q < k && #[trigger] arrived_idx(results@, q) == o.idx;
                            assert(arrived_idx(results@, q) == arrived_idx(results@, k as int));
                        }
                    }
                    return Err(MatrixError::ChannelFailure);
                }
                data.set(o.idx, o.value);
                filled.set(o.idx, true);
            },
        }
        proof {
            assert(arrived_idx(results@, k as int) < n);
            assert forall|s2: int|
                0 <= s2 < n implies (#[trigger] filled@[s2] <==> exists|q: int|
                    0 <= q < k + 1 && #[trigger] arrived_idx(results@, q) == s2) by {
                if s2 == arrived_idx(results@, k as int) {
                    assert(arrived_idx(results@, k as int) == s2);
                }
            }
        }
        k = k + 1;
    }
    Ok(Matrix::new(data, row, col))
}

} // verus!
