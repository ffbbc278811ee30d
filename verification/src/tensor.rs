use vstd::prelude::*;
use vstd::arithmetic::div_mod::lemma_fundamental_div_mod;

verus! {

/// The number of elements of an array of the given shape: the product of its
/// dimensions, taken from the first.
pub open spec fn shape_size(shape: Seq<usize>) -> int
    decreases shape.len(),
{
    if shape.len() == 0 {
        1
    } else {
        shape_size(shape.drop_last()) * shape.last()
    }
}

/// Every partial product of the dimensions fits in a `usize`.
pub open spec fn shape_fits(shape: Seq<usize>) -> bool {
    forall|i: int| 0 <= i <= shape.len() ==> shape_size(#[trigger] shape.take(i)) <= usize::MAX
}

/// Sizes are never negative.
pub proof fn lemma_shape_size_nonneg(shape: Seq<usize>)
    ensures
        shape_size(shape) >= 0,
    decreases shape.len(),
{
    if shape.len() > 0 {
        lemma_shape_size_nonneg(shape.drop_last());
        assert(shape_size(shape.drop_last()) * shape.last() >= 0) by (nonlinear_arith)
            requires
                shape_size(shape.drop_last()) >= 0,
        ;
    }
}

/// The number of elements of an array of the given shape.
pub fn shape_numel(shape: &[usize]) -> (n: usize)
    requires
        shape_fits(shape@),
    ensures
        n == shape_size(shape@),
{
    let mut n: usize = 1;
    let mut i: usize = 0;
    assert(shape@.take(0) =~= Seq::<usize>::empty());
    while i < shape.len()
        invariant
            i <= shape@.len(),
            shape_fits(shape@),
            n == shape_size(shape@.take(i as int)),
        decreases shape@.len() - i,
    {
        assert(shape@.take(i + 1).drop_last() =~= shape@.take(i as int));
        assert(shape_size(shape@.take(i + 1)) <= usize::MAX);
        n = n * shape[i];
        i = i + 1;
    }
    assert(shape@.take(shape@.len() as int) =~= shape@);
    n
}

fn copy_slice<T: Copy>(xs: &[T]) -> (v: Vec<T>)
    ensures
        v@ == xs@,
{
    let mut v: Vec<T> = Vec::new();
    let mut i: usize = 0;
    while i < xs.len()
        invariant
            i <= xs@.len(),
            v@ == xs@.take(i as int),
        decreases xs@.len() - i,
    {
        v.push(xs[i]);
        i = i + 1;
        assert(v@ =~= xs@.take(i as int));
    }
    assert(xs@.take(xs@.len() as int) =~= xs@);
    v
}

/// A dense array in row-major order.
#[derive(Clone, Debug, PartialEq)]
pub struct Array<T> {
    pub shape: Vec<usize>,
    pub data: Vec<T>,
}

/// Position of entry (`i`, `j`) of a matrix with `n` columns.
pub open spec fn at(n: int, i: int, j: int) -> int {
    i * n + j
}

/// `i * n + j` is a position inside an `m` by `n` matrix.
pub proof fn lemma_at_bounds(m: int, n: int, i: int, j: int)
    requires
        0 <= i < m,
        0 <= j < n,
    ensures
        0 <= at(n, i, j) < m * n,
        at(n, i, j) + 1 <= m * n,
{
    assert(0 <= i * n + j < m * n) by (nonlinear_arith)
        requires
            0 <= i < m,
            0 <= j < n,
    ;
}

impl<T> Array<T> {
    /// The data holds exactly as many elements as the shape calls for.
    pub open spec fn wf(&self) -> bool {
        shape_size(self.shape@) == self.data@.len()
    }

    /// A two-dimensional array whose data matches its shape.
    pub open spec fn is_matrix(&self) -> bool {
        self.shape@.len() == 2 && self.data@.len() == self.shape@[0] * self.shape@[1]
    }

    /// Entry (`i`, `j`) of a matrix.
    pub open spec fn entry(&self, i: int, j: int) -> T {
        self.data@[at(self.shape@[1] as int, i, j)]
    }

    /// An array of the given shape with every element equal to `zero`.
    pub fn zeros(shape: &[usize], zero: T) -> (a: Array<T>)
        where
            T: Copy,
        requires
            shape_fits(shape@),
        ensures
            a.shape@ == shape@,
            a.data@ == Seq::new(shape_size(shape@) as nat, |k: int| zero),
            a.wf(),
    {
        let n = shape_numel(shape);
        let mut data: Vec<T> = Vec::new();
        let mut i: usize = 0;
        while i < n
            invariant
                i <= n,
                data@ == Seq::new(i as nat, |k: int| zero),
            decreases n - i,
        {
            data.push(zero);
            i = i + 1;
            assert(data@ =~= Seq::new(i as nat, |k: int| zero));
        }
        Array { shape: copy_slice(shape), data }
    }

    /// An array of the given shape over the given data, which must hold as
    /// many elements as the shape calls for.
    pub fn from_vec(shape: &[usize], data: Vec<T>) -> (a: Array<T>)
        requires
            shape_fits(shape@),
            shape_size(shape@) == data@.len(),
        ensures
            a.shape@ == shape@,
            a.data@ == data@,
            a.wf(),
    {
        Array { shape: copy_slice(shape), data }
    }

    /// The number of elements.
    pub fn numel(&self) -> (n: usize)
        ensures
            n == self.data@.len(),
    {
        self.data.len()
    }

    /// The number of rows of a two-dimensional array.
    pub fn rows(&self) -> (n: usize)
        requires
            self.shape@.len() == 2,
        ensures
            n == self.shape@[0],
    {
        self.shape[0]
    }

    /// The number of columns of a two-dimensional array.
    pub fn cols(&self) -> (n: usize)
        requires
            self.shape@.len() == 2,
        ensures
            n == self.shape@[1],
    {
        self.shape[1]
    }

    /// The transpose of a matrix: entry (`j`, `i`) of the result is entry
    /// (`i`, `j`) of `self`.
    pub fn transpose(&self) -> (t: Array<T>)
        where
            T: Copy,
        requires
            self.shape@.len() == 2,
            self.data@.len() >= self.shape@[0] * self.shape@[1],
        ensures
            t.is_matrix(),
            t.shape@ == seq![self.shape@[1], self.shape@[0]],
            forall|i: int, j: int|
                0 <= i < self.shape@[0] && 0 <= j < self.shape@[1] ==> #[trigger] t.entry(j, i)
                    == self.entry(i, j),
    {
        let m = self.rows();
        let n = self.cols();
        let total = self.data.len();
        let mut out: Vec<T> = Vec::new();
        let mut j: usize = 0;
        while j < n
            invariant
                self.shape@.len() == 2,
                self.data@.len() >= m * n,
                m == self.shape@[0],
                n == self.shape@[1],
                total == self.data@.len(),
                j <= n,
                out@.len() == j * m,
                forall|jj: int, ii: int|
                    0 <= jj < j && 0 <= ii < m ==> #[trigger] out@[at(m as int, jj, ii)]
                        == self.data@[at(n as int, ii, jj)],
            decreases n - j,
        {
            let mut i: usize = 0;
            while i < m
                invariant
                    self.shape@.len() == 2,
                    self.data@.len() >= m * n,
                    m == self.shape@[0],
                    n == self.shape@[1],
                    total == self.data@.len(),
                    j < n,
                    i <= m,
                    out@.len() == j * m + i,
                    forall|jj: int, ii: int|
                        (0 <= jj < j && 0 <= ii < m) || (jj == j && 0 <= ii < i)
                            ==> #[trigger] out@[at(m as int, jj, ii)] == self.data@[at(
                            n as int,
                            ii,
                            jj,
                        )],
                decreases m - i,
            {
                proof {
                    lemma_at_bounds(m as int, n as int, i as int, j as int);
                }
                out.push(self.data[i * n + j]);
                proof {
                    assert forall|jj: int, ii: int|
                        (0 <= jj < j && 0 <= ii < m) || (jj == j && 0 <= ii < i + 1)
                            implies #[trigger] out@[at(m as int, jj, ii)] == self.data@[at(
                            n as int,
                            ii,
                            jj,
                        )] by {
                        if jj < j {
                            lemma_at_bounds(j as int, m as int, jj, ii);
                            assert(at(m as int, jj, ii) < j * m) by (nonlinear_arith)
                                requires
                                    0 <= jj < j,
                                    0 <= ii < m,
                            ;
                        }
                    }
                }
                i = i + 1;
            }
            assert(out@.len() == (j + 1) * m) by (nonlinear_arith)
                requires
                    out@.len() == j * m + m,
            ;
            j = j + 1;
        }
        proof {
            assert(out@.len() == m * n) by (nonlinear_arith)
                requires
                    out@.len() == n * m,
            ;
        }
        let shape = vec![n, m];
        Array { shape, data: out }
    }
}

impl<T: Copy> Array<T> {
    /// Applies `f` to every element; the shape is kept.
    pub fn map<U, F: Fn(T) -> U>(&self, f: F) -> (r: Array<U>)
        requires
            forall|k: int| 0 <= k < self.data@.len() ==> call_requires(f, (#[trigger] self.data@[k],)),
        ensures
            r.shape@ == self.shape@,
            r.data@.len() == self.data@.len(),
            forall|k: int|
                0 <= k < self.data@.len() ==> call_ensures(f, (self.data@[k],), #[trigger] r.data@[k]),
    {
        let mut out: Vec<U> = Vec::new();
        let mut k: usize = 0;
        while k < self.data.len()
            invariant
                k <= self.data@.len(),
                out@.len() == k,
                forall|q: int| 0 <= q < self.data@.len() ==> call_requires(f, (#[trigger] self.data@[q],)),
                forall|q: int| 0 <= q < k ==> call_ensures(f, (self.data@[q],), #[trigger] out@[q]),
            decreases self.data@.len() - k,
        {
            let v = f(self.data[k]);
            out.push(v);
            k = k + 1;
        }
        Array { shape: copy_slice(self.shape.as_slice()), data: out }
    }

    /// Combines the elements of two arrays of one shape pairwise with `f`,
    /// stopping at the end of the shorter data.
    pub fn zip_map<U, F: Fn(T, T) -> U>(&self, o: &Array<T>, f: F) -> (r: Array<U>)
        requires
            self.shape@ == o.shape@,
            forall|k: int|
                0 <= k < self.data@.len() && 0 <= k < o.data@.len() ==> call_requires(
                    f,
                    (#[trigger] self.data@[k], o.data@[k]),
                ),
        ensures
            r.shape@ == self.shape@,
            r.data@.len() == (if self.data@.len() <= o.data@.len() {
                self.data@.len()
            } else {
                o.data@.len()
            }),
            forall|k: int|
                0 <= k < r.data@.len() ==> call_ensures(
                    f,
                    (self.data@[k], o.data@[k]),
                    #[trigger] r.data@[k],
                ),
    {
        let n = if self.data.len() <= o.data.len() {
            self.data.len()
        } else {
            o.data.len()
        };
        let mut out: Vec<U> = Vec::new();
        let mut k: usize = 0;
        while k < n
            invariant
                n <= self.data@.len(),
                n <= o.data@.len(),
                k <= n,
                out@.len() == k,
                forall|q: int|
                    0 <= q < self.data@.len() && 0 <= q < o.data@.len() ==> call_requires(
                        f,
                        (#[trigger] self.data@[q], o.data@[q]),
                    ),
                forall|q: int|
                    0 <= q < k ==> call_ensures(f, (self.data@[q], o.data@[q]), #[trigger] out@[q]),
            decreases n - k,
        {
            let v = f(self.data[k], o.data[k]);
            out.push(v);
            k = k + 1;
        }
        Array { shape: copy_slice(self.shape.as_slice()), data: out }
    }

    /// Combines every row of a matrix with the vector `bias` through `f`:
    /// entry (`i`, `j`) becomes `f(entry (i, j), bias[j])`; data past the
    /// matrix is kept as it is.
    pub fn broadcast_rows<F: Fn(T, T) -> T>(&self, bias: &Array<T>, f: F) -> (r: Array<T>)
        requires
            self.shape@.len() == 2,
            bias.shape@ == seq![self.shape@[1]],
            self.data@.len() >= self.shape@[0] * self.shape@[1],
            bias.data@.len() >= self.shape@[1],
            forall|i: int, j: int|
                0 <= i < self.shape@[0] && 0 <= j < self.shape@[1] ==> call_requires(
                    f,
                    (#[trigger] self.entry(i, j), bias.data@[j]),
                ),
        ensures
            r.shape@ == self.shape@,
            r.data@.len() == self.data@.len(),
            forall|i: int, j: int|
                0 <= i < self.shape@[0] && 0 <= j < self.shape@[1] ==> call_ensures(
                    f,
                    (self.entry(i, j), bias.data@[j]),
                    #[trigger] r.entry(i, j),
                ),
            forall|k: int|
                self.shape@[0] * self.shape@[1] <= k < self.data@.len() ==> #[trigger] r.data@[k]
                    == self.data@[k],
    {
        let m = self.rows();
        let n = self.cols();
        let total = self.data.len();
        let mut out: Vec<T> = Vec::new();
        let mut i: usize = 0;
        while i < m
            invariant
                self.shape@.len() == 2,
                m == self.shape@[0],
                n == self.shape@[1],
                total == self.data@.len(),
                total >= m * n,
                bias.data@.len() >= n,
                i <= m,
                out@.len() == i * n,
                forall|ii: int, jj: int|
                    0 <= ii < m && 0 <= jj < n ==> call_requires(
                        f,
                        (#[trigger] self.entry(ii, jj), bias.data@[jj]),
                    ),
                forall|ii: int, jj: int|
                    0 <= ii < i && 0 <= jj < n ==> call_ensures(
                        f,
                        (self.entry(ii, jj), bias.data@[jj]),
                        #[trigger] out@[at(n as int, ii, jj)],
                    ),
            decreases m - i,
        {
            let mut j: usize = 0;
            while j < n
                invariant
                    self.shape@.len() == 2,
                    m == self.shape@[0],
                    n == self.shape@[1],
                    total == self.data@.len(),
                    total >= m * n,
                    bias.data@.len() >= n,
                    i < m,
                    j <= n,
                    out@.len() == i * n + j,
                    forall|ii: int, jj: int|
                        0 <= ii < m && 0 <= jj < n ==> call_requires(
                            f,
                            (#[trigger] self.entry(ii, jj), bias.data@[jj]),
                        ),
                    forall|ii: int, jj: int|
                        (0 <= ii < i && 0 <= jj < n) || (ii == i && 0 <= jj < j) ==> call_ensures(
                            f,
                            (self.entry(ii, jj), bias.data@[jj]),
                            #[trigger] out@[at(n as int, ii, jj)],
                        ),
                decreases n - j,
            {
                proof {
                    lemma_at_bounds(m as int, n as int, i as int, j as int);
                }
                assert(self.entry(i as int, j as int) == self.data@[i * n + j]);
                let v = f(self.data[i * n + j], bias.data[j]);
                out.push(v);
                proof {
                    assert forall|ii: int, jj: int|
                        (0 <= ii < i && 0 <= jj < n) || (ii == i && 0 <= jj < j + 1)
                            implies call_ensures(
                            f,
                            (self.entry(ii, jj), bias.data@[jj]),
                            #[trigger] out@[at(n as int, ii, jj)],
                        ) by {
                        if ii < i {
                            assert(at(n as int, ii, jj) < i * n) by (nonlinear_arith)
                                requires
                                    0 <= ii < i,
                                    0 <= jj < n,
                            ;
                        }
                    }
                }
                j = j + 1;
            }
            assert(out@.len() == (i + 1) * n) by (nonlinear_arith)
                requires
                    out@.len() == i * n + n,
            ;
            i = i + 1;
        }
        let mut k: usize = m * n;
        while k < total
            invariant
                self.shape@.len() == 2,
                m == self.shape@[0],
                n == self.shape@[1],
                total == self.data@.len(),
                m * n <= k <= total,
                out@.len() == k,
                forall|q: int| m * n <= q < k ==> #[trigger] out@[q] == self.data@[q],
                forall|ii: int, jj: int|
                    0 <= ii < m && 0 <= jj < n ==> call_ensures(
                        f,
                        (self.entry(ii, jj), bias.data@[jj]),
                        #[trigger] out@[at(n as int, ii, jj)],
                    ),
            decreases total - k,
        {
            let ghost before = out@;
            out.push(self.data[k]);
            proof {
                assert forall|ii: int, jj: int| 0 <= ii < m && 0 <= jj < n implies out@[at(
                    n as int,
                    ii,
                    jj,
                )] == before[at(n as int, ii, jj)] by {
                    lemma_at_bounds(m as int, n as int, ii, jj);
                }
            }
            k = k + 1;
        }
        let r = Array { shape: copy_slice(self.shape.as_slice()), data: out };
        assert forall|i: int, j: int|
            0 <= i < self.shape@[0] && 0 <= j < self.shape@[1] implies call_ensures(
            f,
            (self.entry(i, j), bias.data@[j]),
            #[trigger] r.entry(i, j),
        ) by {
            assert(r.entry(i, j) == out@[at(n as int, i, j)]);
        }
        r
    }
}

/// `r` is what folding `f` over `xs` from `init` can give: a chain of
/// partial results, each one `f` of the one before and the next element.
pub open spec fn is_fold<T, F: Fn(T, T) -> T>(f: F, init: T, xs: Seq<T>, r: T) -> bool {
    exists|acc: Seq<T>|
        {
            &&& acc.len() == xs.len() + 1
            &&& acc[0] == init
            &&& acc[xs.len() as int] == r
            &&& forall|p: int|
                0 <= p < xs.len() ==> call_ensures(f, (acc[p], xs[p]), #[trigger] acc[p + 1])
        }
}

/// `r` is what a dot product of `xs` and `ys` can give: starting from
/// `zero`, combine with `plus` the product under `times` of each pair in
/// turn.
pub open spec fn is_dot<T, M: Fn(T, T) -> T, A: Fn(T, T) -> T>(
    times: M,
    plus: A,
    zero: T,
    xs: Seq<T>,
    ys: Seq<T>,
    r: T,
) -> bool {
    exists|acc: Seq<T>, prods: Seq<T>|
        {
            &&& acc.len() == xs.len() + 1
            &&& prods.len() == xs.len()
            &&& acc[0] == zero
            &&& acc[xs.len() as int] == r
            &&& forall|p: int|
                0 <= p < xs.len() ==> call_ensures(times, (xs[p], ys[p]), #[trigger] prods[p])
                    && call_ensures(plus, (acc[p], prods[p]), acc[p + 1])
        }
}

impl<T: Copy> Array<T> {
    /// Row `i` of a matrix with `k` columns.
    pub open spec fn row(&self, i: int, k: int) -> Seq<T> {
        Seq::new(k as nat, |p: int| self.data@[at(k, i, p)])
    }

    /// Column `j` of the first `rows` rows of a matrix with `n` columns.
    pub open spec fn column(&self, j: int, rows: int, n: int) -> Seq<T> {
        Seq::new(rows as nat, |p: int| self.data@[at(n, p, j)])
    }

    /// The matrix product, with `times` and `plus` as the element operations:
    /// entry (`i`, `j`) adds up, from `zero` and in order of `p`, the products
    /// of entry (`i`, `p`) of `self` and entry (`p`, `j`) of `o`.
    pub fn matmul_with<M: Fn(T, T) -> T, A: Fn(T, T) -> T>(
        &self,
        o: &Array<T>,
        zero: T,
        times: M,
        plus: A,
    ) -> (r: Array<T>)
        requires
            self.shape@.len() == 2,
            o.shape@.len() == 2,
            self.shape@[1] == o.shape@[0],
            self.data@.len() >= self.shape@[0] * self.shape@[1],
            o.data@.len() >= o.shape@[0] * o.shape@[1],
            self.shape@[0] * o.shape@[1] <= usize::MAX,
            forall|x: T, y: T| call_requires(times, (x, y)),
            forall|x: T, y: T| call_requires(plus, (x, y)),
        ensures
            r.is_matrix(),
            r.shape@ == seq![self.shape@[0], o.shape@[1]],
            forall|i: int, j: int|
                0 <= i < self.shape@[0] && 0 <= j < o.shape@[1] ==> is_dot(
                    times,
                    plus,
                    zero,
                    self.row(i, self.shape@[1] as int),
                    o.column(j, o.shape@[0] as int, o.shape@[1] as int),
                    #[trigger] r.entry(i, j),
                ),
    {
        let m = self.rows();
        let k = self.cols();
        let n = o.cols();
        let la = self.data.len();
        let lb = o.data.len();
        let mut out: Vec<T> = Vec::new();
        let mut i: usize = 0;
        while i < m
            invariant
                m == self.shape@[0],
                k == self.shape@[1],
                k == o.shape@[0],
                n == o.shape@[1],
                la == self.data@.len(),
                lb == o.data@.len(),
                la >= m * k,
                lb >= k * n,
                m * n <= usize::MAX,
                forall|x: T, y: T| call_requires(times, (x, y)),
                forall|x: T, y: T| call_requires(plus, (x, y)),
                i <= m,
                out@.len() == i * n,
                forall|ii: int, jj: int|
                    0 <= ii < i && 0 <= jj < n ==> is_dot(
                        times,
                        plus,
                        zero,
                        self.row(ii, k as int),
                        o.column(jj, k as int, n as int),
                        #[trigger] out@[at(n as int, ii, jj)],
                    ),
            decreases m - i,
        {
            let mut j: usize = 0;
            while j < n
                invariant
                    m == self.shape@[0],
                    k == self.shape@[1],
                    k == o.shape@[0],
                    n == o.shape@[1],
                    la == self.data@.len(),
                    lb == o.data@.len(),
                    la >= m * k,
                    lb >= k * n,
                    m * n <= usize::MAX,
                    forall|x: T, y: T| call_requires(times, (x, y)),
                    forall|x: T, y: T| call_requires(plus, (x, y)),
                    i < m,
                    j <= n,
                    out@.len() == i * n + j,
                    forall|ii: int, jj: int|
                        (0 <= ii < i && 0 <= jj < n) || (ii == i && 0 <= jj < j) ==> is_dot(
                            times,
                            plus,
                            zero,
                            self.row(ii, k as int),
                            o.column(jj, k as int, n as int),
                            #[trigger] out@[at(n as int, ii, jj)],
                        ),
                decreases n - j,
            {
                let ghost xs = self.row(i as int, k as int);
                let ghost ys = o.column(j as int, k as int, n as int);
                let mut acc = zero;
                let ghost mut accs: Seq<T> = seq![zero];
                let ghost mut prods: Seq<T> = Seq::empty();
                let mut p: usize = 0;
                while p < k
                    invariant
                        m == self.shape@[0],
                        k == self.shape@[1],
                        n == o.shape@[1],
                        la == self.data@.len(),
                        lb == o.data@.len(),
                        la >= m * k,
                        lb >= k * n,
                        i < m,
                        j < n,
                        forall|x: T, y: T| call_requires(times, (x, y)),
                        forall|x: T, y: T| call_requires(plus, (x, y)),
                        xs == self.row(i as int, k as int),
                        ys == o.column(j as int, k as int, n as int),
                        p <= k,
                        accs.len() == p + 1,
                        prods.len() == p,
                        accs[0] == zero,
                        accs[p as int] == acc,
                        forall|q: int|
                            0 <= q < p ==> call_ensures(times, (xs[q], ys[q]), #[trigger] prods[q])
                                && call_ensures(plus, (accs[q], prods[q]), accs[q + 1]),
                    decreases k - p,
                {
                    proof {
                        lemma_at_bounds(m as int, k as int, i as int, p as int);
                        lemma_at_bounds(k as int, n as int, p as int, j as int);
                    }
                    let x = self.data[i * k + p];
                    let y = o.data[p * n + j];
                    let prod = times(x, y);
                    let next = plus(acc, prod);
                    proof {
                        assert(xs[p as int] == x);
                        assert(ys[p as int] == y);
                        prods = prods.push(prod);
                        accs = accs.push(next);
                    }
                    acc = next;
                    p = p + 1;
                }
                proof {
                    lemma_at_bounds(m as int, n as int, i as int, j as int);
                    assert(is_dot(times, plus, zero, xs, ys, acc)) by {
                        assert(accs[k as int] == acc);
                    }
                }
                let ghost before = out@;
                out.push(acc);
                proof {
                    assert(out@[at(n as int, i as int, j as int)] == acc);
                    assert forall|ii: int, jj: int|
                        (0 <= ii < i && 0 <= jj < n) || (ii == i && 0 <= jj < j + 1)
                            implies is_dot(
                            times,
                            plus,
                            zero,
                            self.row(ii, k as int),
                            o.column(jj, k as int, n as int),
                            #[trigger] out@[at(n as int, ii, jj)],
                        ) by {
                        if ii < i {
                            assert(at(n as int, ii, jj) < i * n) by (nonlinear_arith)
                                requires
                                    0 <= ii < i,
                                    0 <= jj < n,
                            ;
                            assert(out@[at(n as int, ii, jj)] == before[at(n as int, ii, jj)]);
                        } else if jj < j {
                            assert(out@[at(n as int, ii, jj)] == before[at(n as int, ii, jj)]);
                        }
                    }
                }
                j = j + 1;
            }
            assert(out@.len() == (i + 1) * n) by (nonlinear_arith)
                requires
                    out@.len() == i * n + n,
            ;
            i = i + 1;
        }
        proof {
            assert(out@.len() == m * n);
        }
        let r = Array { shape: vec![m, n], data: out };
        assert forall|i: int, j: int| 0 <= i < m && 0 <= j < n implies is_dot(
            times,
            plus,
            zero,
            self.row(i, self.shape@[1] as int),
            o.column(j, o.shape@[0] as int, o.shape@[1] as int),
            #[trigger] r.entry(i, j),
        ) by {
            assert(r.entry(i, j) == out@[at(n as int, i, j)]);
        }
        r
    }

    /// Adds up the rows of a matrix with `plus`, from `zero`: entry `j` of the
    /// result folds `plus` over column `j`, first row first. Only whole rows
    /// of the data count.
    pub fn sum_rows_with<A: Fn(T, T) -> T>(&self, zero: T, plus: A) -> (r: Array<T>)
        requires
            self.shape@.len() == 2,
            self.shape@[1] > 0,
            forall|x: T, y: T| call_requires(plus, (x, y)),
        ensures
            r.shape@ == seq![self.shape@[1]],
            r.data@.len() == self.shape@[1],
            forall|j: int|
                0 <= j < self.shape@[1] ==> is_fold(
                    plus,
                    zero,
                    self.column(
                        j,
                        self.data@.len() as int / self.shape@[1] as int,
                        self.shape@[1] as int,
                    ),
                    #[trigger] r.data@[j],
                ),
    {
        let n = self.cols();
        let len = self.data.len();
        let rows = len / n;
        proof {
            assert(rows * n <= len) by (nonlinear_arith)
                requires
                    rows == len / n,
                    n > 0,
            ;
        }
        let mut out: Vec<T> = Vec::new();
        let mut j: usize = 0;
        while j < n
            invariant
                n == self.shape@[1],
                n > 0,
                len == self.data@.len(),
                rows == len as int / n as int,
                rows * n <= len,
                forall|x: T, y: T| call_requires(plus, (x, y)),
                j <= n,
                out@.len() == j,
                forall|jj: int|
                    0 <= jj < j ==> is_fold(
                        plus,
                        zero,
                        self.column(jj, rows as int, n as int),
                        #[trigger] out@[jj],
                    ),
            decreases n - j,
        {
            let ghost xs = self.column(j as int, rows as int, n as int);
            let mut acc = zero;
            let ghost mut accs: Seq<T> = seq![zero];
            let mut i: usize = 0;
            while i < rows
                invariant
                    n == self.shape@[1],
                    len == self.data@.len(),
                    rows * n <= len,
                    j < n,
                    forall|x: T, y: T| call_requires(plus, (x, y)),
                    xs == self.column(j as int, rows as int, n as int),
                    i <= rows,
                    accs.len() == i + 1,
                    accs[0] == zero,
                    accs[i as int] == acc,
                    forall|q: int|
                        0 <= q < i ==> call_ensures(plus, (accs[q], xs[q]), #[trigger] accs[q + 1]),
                decreases rows - i,
            {
                proof {
                    lemma_at_bounds(rows as int, n as int, i as int, j as int);
                }
                let x = self.data[i * n + j];
                let next = plus(acc, x);
                proof {
                    assert(xs[i as int] == x);
                    accs = accs.push(next);
                }
                acc = next;
                i = i + 1;
            }
            proof {
                assert(is_fold(plus, zero, xs, acc)) by {
                    assert(accs[rows as int] == acc);
                }
            }
            out.push(acc);
            j = j + 1;
        }
        Array { shape: vec![n], data: out }
    }
}

/// Transposing twice gives back the matrix.
pub proof fn lemma_transpose_involution<T>(a: Array<T>, t: Array<T>, u: Array<T>)
    requires
        a.is_matrix(),
        t.is_matrix(),
        u.is_matrix(),
        t.shape@ == seq![a.shape@[1], a.shape@[0]],
        u.shape@ == seq![t.shape@[1], t.shape@[0]],
        forall|i: int, j: int|
            0 <= i < a.shape@[0] && 0 <= j < a.shape@[1] ==> #[trigger] t.entry(j, i) == a.entry(
                i,
                j,
            ),
        forall|i: int, j: int|
            0 <= i < t.shape@[0] && 0 <= j < t.shape@[1] ==> #[trigger] u.entry(j, i) == t.entry(
                i,
                j,
            ),
    ensures
        u.shape@ == a.shape@,
        u.data@ == a.data@,
{
    let m = a.shape@[0] as int;
    let n = a.shape@[1] as int;
    assert(u.shape@ =~= a.shape@);
    assert forall|k: int| 0 <= k < a.data@.len() implies u.data@[k] == a.data@[k] by {
        assert(n > 0) by (nonlinear_arith)
            requires
                0 <= k < m * n,
                m >= 0,
                n >= 0,
        ;
        let i = k / n;
        let j = k % n;
        lemma_fundamental_div_mod(k, n);
        assert(0 <= i < m && 0 <= j < n) by (nonlinear_arith)
            requires
                0 <= k < m * n,
                k == n * i + j,
                0 <= j < n,
        ;
        assert(k == at(n, i, j)) by (nonlinear_arith)
            requires
                k == n * i + j,
        ;
        assert(u.entry(i, j) == t.entry(j, i));
        assert(t.entry(j, i) == a.entry(i, j));
    }
    assert(u.data@ =~= a.data@);
}

} // verus!
