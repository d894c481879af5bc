use vstd::prelude::*;

use vstd::std_specs::iter::IteratorSpec;

use crate::error::MatrixError;

verus! {

/// Sum of `a[k] * b[k]` for `k < n`, taken in index order.
pub open spec fn dot_prefix(a: Seq<i64>, b: Seq<i64>, n: int) -> int
    decreases n,
{
    if n <= 0 {
        0
    } else {
        dot_prefix(a, b, n - 1) + a[n - 1] * b[n - 1]
    }
}

/// The inner product of two sequences over the length of the first.
pub open spec fn dot(a: Seq<i64>, b: Seq<i64>) -> int {
    dot_prefix(a, b, a.len() as int)
}

pub open spec fn fits_i64(x: int) -> bool {
    i64::MIN <= x <= i64::MAX
}

/// Every product and every running sum of the dot product of `a` and `b`
/// is representable as an `i64`.
pub open spec fn dot_fits(a: Seq<i64>, b: Seq<i64>) -> bool {
    forall|k: int|
        0 <= k < a.len() ==> #[trigger] fits_i64(a[k] * b[k]) && fits_i64(dot_prefix(a, b, k + 1))
}

/// An owned sequence of elements, one operand of a dot product.
pub struct Vector {
    data: Vec<i64>,
}

impl View for Vector {
    type V = Seq<i64>;

    closed spec fn view(&self) -> Seq<i64> {
        self.data@
    }
}

impl Vector {
    pub fn new(data: Vec<i64>) -> (r: Vector)
        ensures
            r@ == data@,
    {
        Vector { data }
    }

    pub fn len(&self) -> (r: usize)
        ensures
            r == self@.len(),
    {
        self.data.len()
    }

    pub fn is_empty(&self) -> (r: bool)
        ensures
            r == (self@.len() == 0),
    {
        self.data.len() == 0
    }

    /// The element at `i`.
    pub fn get(&self, i: usize) -> (r: i64)
        requires
            i < self@.len(),
        ensures
            r == self@[i as int],
    {
        self.data[i]
    }

    pub fn iter(&self) -> (r: std::slice::Iter<'_, i64>)
        ensures
            r.remaining().len() == self@.len(),
            forall|k: int| 0 <= k < self@.len() ==> *#[trigger] r.remaining()[k] == self@[k],
    {
        self.data.as_slice().iter()
    }

    pub fn into_vec(self) -> (r: Vec<i64>)
        ensures
            r@ == self@,
    {
        self.data
    }
}

/// Whether `dot_product(a, b)` can be computed without leaving the `i64`
/// range: always true for vectors of unequal length, which are rejected
/// before any arithmetic.
pub fn dot_product_fits(a: &Vector, b: &Vector) -> (r: bool)
    ensures
        r == (a@.len() == b@.len() ==> dot_fits(a@, b@)),
{
    if a.len() != b.len() {
        return true;
    }
    let mut acc: i64 = 0;
    let mut i: usize = 0;
    while i < a.len()
        invariant
            a@.len() == b@.len(),
            i <= a@.len(),
            acc == dot_prefix(a@, b@, i as int),
            forall|k: int|
                0 <= k < i ==> #[trigger] fits_i64(a@[k] * b@[k]) && fits_i64(
                    dot_prefix(a@, b@, k + 1),
                ),
        decreases a@.len() - i,
    {
        let p = match a.get(i).checked_mul(b.get(i)) {
            Some(p) => p,
            None => {
                assert(!fits_i64(a@[i as int] * b@[i as int]));
                return false;
            },
        };
        acc = match acc.checked_add(p) {
            Some(s) => s,
            None => {
                assert(fits_i64(a@[i as int] * b@[i as int]));
                assert(dot_prefix(a@, b@, i + 1) == acc + p);
                assert(!fits_i64(dot_prefix(a@, b@, i + 1)));
                return false;
            },
        };
        assert forall|k: int| 0 <= k < i + 1 implies #[trigger] fits_i64(a@[k] * b@[k]) && fits_i64(
            dot_prefix(a@, b@, k + 1),
        ) by {
            if k == i {
                assert(dot_prefix(a@, b@, k + 1) == acc);
            }
        }
        i = i + 1;
    }
    true
}

/// Inner product of two vectors of equal length, summed in index order from
/// zero.
pub fn dot_product(a: Vector, b: Vector) -> (r: Result<i64, MatrixError>)
    requires
        a@.len() == b@.len() ==> dot_fits(a@, b@),
    ensures
        r is Err <==> a@.len() != b@.len(),
        r matches Err(e) ==> e == MatrixError::DimensionMismatch,
        r matches Ok(v) ==> v == dot(a@, b@),
{
    if a.len() != b.len() {
        return Err(MatrixError::DimensionMismatch);
    }
    let mut result: i64 = 0;
    let mut i: usize = 0;
    while i < a.len()
        invariant
            a@.len() == b@.len(),
            dot_fits(a@, b@),
            i <= a@.len(),
            result == dot_prefix(a@, b@, i as int),
        decreases a@.len() - i,
    {
        assert(fits_i64(a@[i as int] * b@[i as int]));
        result = result + a.get(i) * b.get(i);
        i = i + 1;
    }
    Ok(result)
}

} // verus!
