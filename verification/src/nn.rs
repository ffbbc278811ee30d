use vstd::prelude::*;
use crate::tensor::{Array, shape_size, shape_fits};
use crate::autograd::{Id, Kind, Tape};
use crate::weights::{
    ArrayView, LoadError, views, valid_views, weights_bytes, is_prefix, encode_params,
    decode_params,
};

verus! {

/// The shapes of a list of arrays.
pub open spec fn shapes_of<T>(params: Seq<Array<T>>) -> Seq<Seq<usize>> {
    params.map_values(|a: Array<T>| a.shape@)
}

/// The parameter shapes of a perceptron with layer widths `sizes`: for every
/// pair of neighbouring layers a `din` by `dout` weight matrix, then a bias of
/// length `dout`.
pub open spec fn mlp_layout(sizes: Seq<usize>, shapes: Seq<Seq<usize>>) -> bool {
    &&& sizes.len() >= 2
    &&& shapes.len() == 2 * (sizes.len() - 1)
    &&& forall|k: int|
        0 <= k < sizes.len() - 1 ==> #[trigger] shapes[2 * k] == seq![sizes[k]].push(sizes[k + 1])
            && shapes[2 * k + 1] == seq![sizes[k + 1]]
}

/// The layer widths that a list of parameter shapes describes: the input and
/// output width of the first matrix, then the output width of every further
/// matrix (the two-dimensional shapes at even positions).
pub open spec fn layer_sizes(shapes: Seq<Seq<usize>>) -> Seq<usize>
    decreases shapes.len(),
{
    if shapes.len() == 0 {
        Seq::empty()
    } else {
        let s = layer_sizes(shapes.drop_last());
        let sh = shapes.last();
        if (shapes.len() - 1) % 2 == 0 && sh.len() == 2 {
            (if s.len() == 0 {
                seq![sh[0]]
            } else {
                s
            }).push(sh[1])
        } else {
            s
        }
    }
}

/// The widths recovered from the parameters of a perceptron are its widths.
pub proof fn lemma_layout_sizes(sizes: Seq<usize>, shapes: Seq<Seq<usize>>)
    requires
        mlp_layout(sizes, shapes),
    ensures
        layer_sizes(shapes) == sizes,
{
    let n = shapes.len() as int;
    lemma_layout_sizes_prefix(sizes, shapes, n);
    assert(shapes.take(n) =~= shapes);
    assert(sizes.take((n - 1) / 2 + 2) =~= sizes);
}

proof fn lemma_layout_sizes_prefix(sizes: Seq<usize>, shapes: Seq<Seq<usize>>, j: int)
    requires
        mlp_layout(sizes, shapes),
        1 <= j <= shapes.len(),
    ensures
        layer_sizes(shapes.take(j)) == sizes.take((j - 1) / 2 + 2),
    decreases j,
{
    let t = shapes.take(j);
    assert(t.drop_last() =~= shapes.take(j - 1));
    assert(t.last() == shapes[j - 1]);
    if j == 1 {
        assert(shapes[2 * 0int] == seq![sizes[0int]].push(sizes[0int + 1]));
        assert(shapes.take(0) =~= Seq::<Seq<usize>>::empty());
        assert(layer_sizes(shapes.take(0)) == Seq::<usize>::empty());
        assert(sizes.take(2) =~= seq![sizes[0]].push(sizes[1]));
    } else {
        lemma_layout_sizes_prefix(sizes, shapes, j - 1);
        let k = (j - 1) / 2;
        let prev = layer_sizes(shapes.take(j - 1));
        if (j - 1) % 2 == 0 {
            assert(j - 1 == 2 * k);
            assert((j - 2) / 2 + 2 == k + 1);
            assert(shapes[2 * k] == seq![sizes[k]].push(sizes[k + 1]));
            assert(prev == sizes.take(k + 1));
            assert(sizes.take(k + 2) =~= sizes.take(k + 1).push(sizes[k + 1]));
        } else {
            assert(j - 1 == 2 * k + 1);
            assert((j - 2) / 2 + 2 == k + 2);
            assert(shapes[2 * k + 1] == seq![sizes[k + 1]]);
        }
    }
}

/// The shape of parameter `q` of a perceptron with layer widths `sizes`.
pub open spec fn layer_shape(sizes: Seq<usize>, q: int) -> Seq<usize> {
    if q % 2 == 0 {
        seq![sizes[q / 2]].push(sizes[q / 2 + 1])
    } else {
        seq![sizes[q / 2 + 1]]
    }
}

/// The parameter shapes `Mlp::new` lays out for the layer widths `sizes`.
pub fn layer_shapes(sizes: &[usize]) -> (shapes: Vec<Vec<usize>>)
    requires
        sizes@.len() >= 2,
    ensures
        mlp_layout(sizes@, shapes@.map_values(|s: Vec<usize>| s@)),
{
    let mut shapes: Vec<Vec<usize>> = Vec::new();
    let n = sizes.len();
    let mut k: usize = 0;
    while k + 1 < n
        invariant
            n == sizes@.len(),
            sizes@.len() >= 2,
            k + 1 <= sizes@.len(),
            shapes@.len() == 2 * k,
            forall|q: int| 0 <= q < 2 * k ==> (#[trigger] shapes@[q])@ == layer_shape(sizes@, q),
        decreases sizes@.len() - k,
    {
        let w = vec![sizes[k], sizes[k + 1]];
        let b = vec![sizes[k + 1]];
        let ghost before = shapes@;
        shapes.push(w);
        shapes.push(b);
        proof {
            assert(shapes@ == before.push(w).push(b));
            assert(w@ =~= layer_shape(sizes@, 2 * k));
            assert(b@ =~= layer_shape(sizes@, 2 * k + 1));
            assert forall|q: int| 0 <= q < 2 * (k + 1) implies (#[trigger] shapes@[q])@
                == layer_shape(sizes@, q) by {
                if q < 2 * k {
                    assert(shapes@[q] == before[q]);
                } else if q == 2 * k {
                    assert(shapes@[q] == w);
                } else {
                    assert(shapes@[q] == b);
                }
            }
        }
        k = k + 1;
    }
    let ghost v = shapes@.map_values(|s: Vec<usize>| s@);
    assert forall|q: int| 0 <= q < sizes@.len() - 1 implies #[trigger] v[2 * q] == seq![
        sizes@[q],
    ].push(sizes@[q + 1]) && v[2 * q + 1] == seq![sizes@[q + 1]] by {
        assert(v[2 * q] == shapes@[2 * q]@);
        assert(v[2 * q + 1] == shapes@[2 * q + 1]@);
        assert((2 * q) / 2 == q && (2 * q) % 2 == 0);
        assert((2 * q + 1) / 2 == q && (2 * q + 1) % 2 == 1);
    }
    shapes
}

/// The layer widths that the parameters' shapes describe.
pub fn infer_sizes<T>(params: &Vec<Array<T>>) -> (sizes: Vec<usize>)
    ensures
        sizes@ == layer_sizes(shapes_of(params@)),
{
    let mut sizes: Vec<usize> = Vec::new();
    let mut i: usize = 0;
    assert(shapes_of(params@).take(0) =~= Seq::<Seq<usize>>::empty());
    while i < params.len()
        invariant
            i <= params@.len(),
            sizes@ == layer_sizes(shapes_of(params@).take(i as int)),
        decreases params@.len() - i,
    {
        let shape = &params[i].shape;
        assert(shapes_of(params@).take(i + 1).drop_last() =~= shapes_of(params@).take(i as int));
        assert(shapes_of(params@).take(i + 1).last() == shape@);
        if i % 2 == 0 && shape.len() == 2 {
            if sizes.len() == 0 {
                sizes.push(shape[0]);
            }
            sizes.push(shape[1]);
        }
        i = i + 1;
    }
    assert(shapes_of(params@).take(params@.len() as int) =~= shapes_of(params@));
    sizes
}

fn copy_array<T: Copy>(a: &Array<T>) -> (r: Array<T>)
    ensures
        r.shape@ == a.shape@,
        r.data@ == a.data@,
{
    let mut shape: Vec<usize> = Vec::new();
    let mut i: usize = 0;
    while i < a.shape.len()
        invariant
            i <= a.shape@.len(),
            shape@ == a.shape@.take(i as int),
        decreases a.shape@.len() - i,
    {
        shape.push(a.shape[i]);
        i = i + 1;
        assert(shape@ =~= a.shape@.take(i as int));
    }
    let mut data: Vec<T> = Vec::new();
    let mut j: usize = 0;
    while j < a.data.len()
        invariant
            j <= a.data@.len(),
            data@ == a.data@.take(j as int),
        decreases a.data@.len() - j,
    {
        data.push(a.data[j]);
        j = j + 1;
        assert(data@ =~= a.data@.take(j as int));
    }
    assert(shape@ =~= a.shape@);
    assert(data@ =~= a.data@);
    Array { shape, data }
}

/// A multilayer perceptron's layer widths and parameters: weight matrices at
/// even positions, biases at odd ones.
pub struct Mlp<T> {
    pub sizes: Vec<usize>,
    pub params: Vec<Array<T>>,
}

impl<T: Copy> Mlp<T> {
    /// A perceptron of the same widths and shapes with every parameter equal
    /// to `zero`.
    pub fn zeros_like(&self, zero: T) -> (r: Mlp<T>)
        requires
            forall|i: int|
                0 <= i < self.params@.len() ==> shape_fits(#[trigger] self.params@[i].shape@),
        ensures
            r.sizes@ == self.sizes@,
            r.params@.len() == self.params@.len(),
            forall|i: int|
                0 <= i < self.params@.len() ==> (#[trigger] r.params@[i]).shape@
                    == self.params@[i].shape@ && r.params@[i].data@ == Seq::new(
                    shape_size(self.params@[i].shape@) as nat,
                    |k: int| zero,
                ),
    {
        let mut params: Vec<Array<T>> = Vec::new();
        let mut i: usize = 0;
        while i < self.params.len()
            invariant
                i <= self.params@.len(),
                params@.len() == i,
                forall|q: int|
                    0 <= q < self.params@.len() ==> shape_fits(#[trigger] self.params@[q].shape@),
                forall|q: int|
                    0 <= q < i ==> (#[trigger] params@[q]).shape@ == self.params@[q].shape@
                        && params@[q].data@ == Seq::new(
                        shape_size(self.params@[q].shape@) as nat,
                        |k: int| zero,
                    ),
            decreases self.params@.len() - i,
        {
            let a = Array::zeros(self.params[i].shape.as_slice(), zero);
            params.push(a);
            i = i + 1;
        }
        let mut sizes: Vec<usize> = Vec::new();
        let mut j: usize = 0;
        while j < self.sizes.len()
            invariant
                j <= self.sizes@.len(),
                sizes@ == self.sizes@.take(j as int),
            decreases self.sizes@.len() - j,
        {
            sizes.push(self.sizes[j]);
            j = j + 1;
            assert(sizes@ =~= self.sizes@.take(j as int));
        }
        assert(sizes@ =~= self.sizes@);
        Mlp { sizes, params }
    }

    /// Copies the parameters of a perceptron of the same widths, position by
    /// position, as far as both have parameters.
    pub fn copy_from(&mut self, o: &Mlp<T>)
        requires
            old(self).sizes@ == o.sizes@,
        ensures
            final(self).sizes@ == old(self).sizes@,
            final(self).params@.len() == old(self).params@.len(),
            forall|i: int|
                0 <= i < final(self).params@.len() ==> if i < o.params@.len() {
                    (#[trigger] final(self).params@[i]).shape@ == o.params@[i].shape@
                        && final(self).params@[i].data@ == o.params@[i].data@
                } else {
                    final(self).params@[i] == old(self).params@[i]
                },
    {
        let n = if self.params.len() <= o.params.len() {
            self.params.len()
        } else {
            o.params.len()
        };
        let mut i: usize = 0;
        while i < n
            invariant
                n <= self.params@.len(),
                n <= o.params@.len(),
                i <= n,
                self.sizes@ == old(self).sizes@,
                self.params@.len() == old(self).params@.len(),
                forall|q: int|
                    0 <= q < self.params@.len() ==> if q < i {
                        (#[trigger] self.params@[q]).shape@ == o.params@[q].shape@
                            && self.params@[q].data@ == o.params@[q].data@
                    } else {
                        self.params@[q] == old(self).params@[q]
                    },
            decreases n - i,
        {
            let a = copy_array(&o.params[i]);
            self.params.set(i, a);
            i = i + 1;
        }
    }
}

/// Position on the tape of the node that records parameter `i`, when the
/// forward pass starts on a tape of `base` values: every parameter brings its
/// own node and one operation, and every hidden layer one activation.
pub open spec fn param_pos(base: int, i: int) -> int {
    base + 2 * i + i / 2
}

/// The value the forward pass combines with parameter `i`: the input for the
/// first, otherwise the product, or the activation, that came before.
pub open spec fn layer_input(x: Id, base: int, i: int) -> int {
    if i == 0 {
        x.0 as int
    } else if (i - 1) % 2 == 0 {
        param_pos(base, i - 1) + 1
    } else {
        param_pos(base, i - 1) + 2
    }
}

/// Parameter `i` of the forward pass is recorded on `tape`: its input node
/// at `param_pos(base, i)`, followed by a product with the running value
/// (even `i`) or a bias added to it (odd `i`), and an activation after every
/// bias but the last.
pub open spec fn layer_recorded<T, M, B, R>(
    tape: Tape<Array<T>>,
    params: Seq<Array<T>>,
    x: Id,
    base: int,
    i: int,
    matmul: M,
    add_bias: B,
    relu: R,
) -> bool where
    M: Fn(&Array<T>, &Array<T>) -> Array<T>,
    B: Fn(&Array<T>, &Array<T>) -> Array<T>,
    R: Fn(&Array<T>) -> Array<T>,
 {
    let p = param_pos(base, i);
    let h = layer_input(x, base, i);
    &&& tape.kind_at(p) == Kind::Input
    &&& tape.inputs_at(p).len() == 0
    &&& tape.value_at(p).shape@ == params[i].shape@
    &&& tape.value_at(p).data@ == params[i].data@
    &&& tape.inputs_at(p + 1) == seq![Id(h as usize), Id(p as usize)]
    &&& if i % 2 == 0 {
        &&& tape.kind_at(p + 1) == Kind::MatMul
        &&& call_ensures(matmul, (&tape.value_at(h), &tape.value_at(p)), tape.value_at(p + 1))
    } else {
        &&& tape.kind_at(p + 1) == Kind::AddBias
        &&& call_ensures(add_bias, (&tape.value_at(h), &tape.value_at(p)), tape.value_at(p + 1))
        &&& i + 1 < params.len() ==> {
            &&& tape.kind_at(p + 2) == Kind::Relu
            &&& tape.inputs_at(p + 2) == seq![Id((p + 1) as usize)]
            &&& call_ensures(relu, (&tape.value_at(p + 1),), tape.value_at(p + 2))
        }
    }
}

/// The first `n` parameters of the forward pass are recorded on `tape`.
pub open spec fn forward_recorded<T, M, B, R>(
    tape: Tape<Array<T>>,
    params: Seq<Array<T>>,
    x: Id,
    base: int,
    n: int,
    matmul: M,
    add_bias: B,
    relu: R,
) -> bool where
    M: Fn(&Array<T>, &Array<T>) -> Array<T>,
    B: Fn(&Array<T>, &Array<T>) -> Array<T>,
    R: Fn(&Array<T>) -> Array<T>,
 {
    forall|i: int|
        0 <= i < n ==> #[trigger] layer_recorded(tape, params, x, base, i, matmul, add_bias, relu)
}

/// The two tapes hold the same values, operations, gradients and targets
/// below position `k`.
pub open spec fn agrees_below<V>(a: Tape<V>, b: Tape<V>, k: int) -> bool {
    forall|q: int|
        0 <= q < k ==> a.value_at(q) == b.value_at(q) && a.kind_at(q) == b.kind_at(q)
            && a.inputs_at(q) == b.inputs_at(q) && a.grad_at(q) == b.grad_at(q) && a.target_at(q)
            == b.target_at(q)
}

/// No value at position `k` or after it has a gradient yet.
pub open spec fn no_grads_from<V>(t: Tape<V>, k: int) -> bool {
    forall|q: int| k <= q < t.size() ==> (#[trigger] t.grad_at(q)) is None
}

proof fn lemma_layer_stable<T, M, B, R>(
    a: Tape<Array<T>>,
    b: Tape<Array<T>>,
    params: Seq<Array<T>>,
    x: Id,
    base: int,
    q: int,
    i: int,
    matmul: M,
    add_bias: B,
    relu: R,
) where
    M: Fn(&Array<T>, &Array<T>) -> Array<T>,
    B: Fn(&Array<T>, &Array<T>) -> Array<T>,
    R: Fn(&Array<T>) -> Array<T>,

    requires
        0 <= q < i,
        x.0 < base,
        layer_recorded(a, params, x, base, q, matmul, add_bias, relu),
        agrees_below(a, b, param_pos(base, i)),
    ensures
        layer_recorded(b, params, x, base, q, matmul, add_bias, relu),
{
    let p = param_pos(base, q);
    assert(param_pos(base, q + 1) <= param_pos(base, i));
    assert(layer_input(x, base, q) < p);
    assert(a.value_at(p) == b.value_at(p));
    assert(a.value_at(p + 1) == b.value_at(p + 1));
    assert(a.value_at(layer_input(x, base, q)) == b.value_at(layer_input(x, base, q)));
    if q % 2 == 1 && q + 1 < params.len() {
        assert(p + 2 < param_pos(base, q + 1));
        assert(a.value_at(p + 2) == b.value_at(p + 2));
        assert(a.kind_at(p + 2) == b.kind_at(p + 2));
        assert(a.inputs_at(p + 2) == b.inputs_at(p + 2));
    }
}

/// In a recorded forward pass every hidden layer is rectified: after the bias
/// of every layer but the last comes an activation node that reads the bias
/// output and holds what `relu` makes of it, and the next layer reads that
/// activation, not the bias output.
pub proof fn lemma_hidden_layers_rectified<T, M, B, R>(
    tape: Tape<Array<T>>,
    params: Seq<Array<T>>,
    x: Id,
    base: int,
    matmul: M,
    add_bias: B,
    relu: R,
) where
    M: Fn(&Array<T>, &Array<T>) -> Array<T>,
    B: Fn(&Array<T>, &Array<T>) -> Array<T>,
    R: Fn(&Array<T>) -> Array<T>,

    requires
        forward_recorded(tape, params, x, base, params.len() as int, matmul, add_bias, relu),
    ensures
        forall|i: int|
            0 <= i && i % 2 == 1 && i + 1 < params.len() ==> {
                let p = #[trigger] param_pos(base, i);
                &&& tape.kind_at(p + 1) == Kind::AddBias
                &&& tape.kind_at(p + 2) == Kind::Relu
                &&& tape.inputs_at(p + 2) == seq![Id((p + 1) as usize)]
                &&& call_ensures(relu, (&tape.value_at(p + 1),), tape.value_at(p + 2))
                &&& layer_input(x, base, i + 1) == p + 2
                &&& tape.inputs_at(param_pos(base, i + 1) + 1)[0] == Id((p + 2) as usize)
            },
{
    assert forall|i: int| 0 <= i && i % 2 == 1 && i + 1 < params.len() implies {
        let p = #[trigger] param_pos(base, i);
        &&& tape.kind_at(p + 1) == Kind::AddBias
        &&& tape.kind_at(p + 2) == Kind::Relu
        &&& tape.inputs_at(p + 2) == seq![Id((p + 1) as usize)]
        &&& call_ensures(relu, (&tape.value_at(p + 1),), tape.value_at(p + 2))
        &&& layer_input(x, base, i + 1) == p + 2
        &&& tape.inputs_at(param_pos(base, i + 1) + 1)[0] == Id((p + 2) as usize)
    } by {
        assert(layer_recorded(tape, params, x, base, i, matmul, add_bias, relu));
        assert(layer_recorded(tape, params, x, base, i + 1, matmul, add_bias, relu));
    }
}

/// `f` multiplies shapes as matrices: an `m` by `k` and a `k` by `n` array
/// give an `m` by `n` one.
pub open spec fn multiplies_shapes<T, F: Fn(&Array<T>, &Array<T>) -> Array<T>>(f: F) -> bool {
    forall|p: &Array<T>, q: &Array<T>, r: Array<T>|
        #![trigger call_ensures(f, (p, q), r)]
        call_ensures(f, (p, q), r) && p.shape@.len() == 2 && q.shape@.len() == 2 && p.shape@[1]
            == q.shape@[0] ==> r.shape@ == seq![p.shape@[0], q.shape@[1]]
}

/// `f` gives an array of the shape of its first argument.
pub open spec fn keeps_first_shape<T, F: Fn(&Array<T>, &Array<T>) -> Array<T>>(f: F) -> bool {
    forall|p: &Array<T>, q: &Array<T>, r: Array<T>|
        #![trigger call_ensures(f, (p, q), r)]
        call_ensures(f, (p, q), r) ==> r.shape@ == p.shape@
}

/// `f` gives an array of the shape of its argument.
pub open spec fn keeps_shape<T, F: Fn(&Array<T>) -> Array<T>>(f: F) -> bool {
    forall|p: &Array<T>, r: Array<T>|
        #![trigger call_ensures(f, (p,), r)]
        call_ensures(f, (p,), r) ==> r.shape@ == p.shape@
}

proof fn lemma_layer_output_shape<T, M, B, R>(
    tape: Tape<Array<T>>,
    params: Seq<Array<T>>,
    sizes: Seq<usize>,
    x: Id,
    base: int,
    rows: usize,
    i: int,
    matmul: M,
    add_bias: B,
    relu: R,
) where
    M: Fn(&Array<T>, &Array<T>) -> Array<T>,
    B: Fn(&Array<T>, &Array<T>) -> Array<T>,
    R: Fn(&Array<T>) -> Array<T>,

    requires
        mlp_layout(sizes, shapes_of(params)),
        forward_recorded(tape, params, x, base, params.len() as int, matmul, add_bias, relu),
        tape.value_at(x.0 as int).shape@ == seq![rows, sizes[0]],
        multiplies_shapes(matmul),
        keeps_first_shape(add_bias),
        keeps_shape(relu),
        0 <= i < params.len(),
    ensures
        tape.value_at(layer_input(x, base, i)).shape@ == seq![rows, sizes[(i + 1) / 2]],
        tape.value_at(param_pos(base, i) + 1).shape@ == seq![rows, sizes[i / 2 + 1]],
    decreases i,
{
    let p = param_pos(base, i);
    let h = layer_input(x, base, i);
    assert(layer_recorded(tape, params, x, base, i, matmul, add_bias, relu));
    assert(shapes_of(params)[i] == params[i].shape@);
    if i > 0 {
        lemma_layer_output_shape(
            tape,
            params,
            sizes,
            x,
            base,
            rows,
            i - 1,
            matmul,
            add_bias,
            relu,
        );
        if (i - 1) % 2 == 1 {
            assert(layer_recorded(tape, params, x, base, i - 1, matmul, add_bias, relu));
        }
    }
    let k = i / 2;
    if i % 2 == 0 {
        assert(i == 2 * k);
        assert(shapes_of(params)[2 * k] == seq![sizes[k]].push(sizes[k + 1]));
        assert(tape.value_at(p).shape@ =~= seq![sizes[k], sizes[k + 1]]);
    } else {
        assert(i == 2 * k + 1);
        assert(shapes_of(params)[2 * k] == seq![sizes[k]].push(sizes[k + 1]));
        assert(shapes_of(params)[2 * k + 1] == seq![sizes[k + 1]]);
    }
}

/// The forward pass of a perceptron laid out for the widths `sizes` turns a
/// `rows` by `sizes[0]` input into a `rows` by `sizes.last()` output, when the
/// operations it is given respect shapes as matrix products, row-bias
/// additions and element-wise activations do.
pub proof fn lemma_forward_output_shape<T, M, B, R>(
    tape: Tape<Array<T>>,
    params: Seq<Array<T>>,
    sizes: Seq<usize>,
    x: Id,
    base: int,
    rows: usize,
    matmul: M,
    add_bias: B,
    relu: R,
) where
    M: Fn(&Array<T>, &Array<T>) -> Array<T>,
    B: Fn(&Array<T>, &Array<T>) -> Array<T>,
    R: Fn(&Array<T>) -> Array<T>,

    requires
        mlp_layout(sizes, shapes_of(params)),
        forward_recorded(tape, params, x, base, params.len() as int, matmul, add_bias, relu),
        tape.value_at(x.0 as int).shape@ == seq![rows, sizes[0]],
        multiplies_shapes(matmul),
        keeps_first_shape(add_bias),
        keeps_shape(relu),
    ensures
        tape.value_at(param_pos(base, params.len() - 1) + 1).shape@ == seq![rows, sizes.last()],
{
    let n = params.len() as int;
    lemma_layer_output_shape(
        tape,
        params,
        sizes,
        x,
        base,
        rows,
        n - 1,
        matmul,
        add_bias,
        relu,
    );
    assert((n - 1) / 2 + 1 == sizes.len() - 1);
}

impl<T: Copy> Mlp<T> {
    /// Records parameter `i` and the operations that follow it.
    fn record_layer<M, B, R>(
        &self,
        tape: &mut Tape<Array<T>>,
        h: Id,
        i: usize,
        x: Id,
        Ghost(base): Ghost<int>,
        matmul: &M,
        add_bias: &B,
        relu: &R,
    ) -> (nh: Id) where
        M: Fn(&Array<T>, &Array<T>) -> Array<T>,
        B: Fn(&Array<T>, &Array<T>) -> Array<T>,
        R: Fn(&Array<T>) -> Array<T>,

        requires
            i < self.params@.len(),
            old(tape).size() == param_pos(base, i as int),
            h.0 == layer_input(x, base, i as int),
            x.0 < base,
            param_pos(base, i as int) + 3 <= usize::MAX,
            forall|a: &Array<T>, b: &Array<T>| call_requires(*matmul, (a, b)),
            forall|a: &Array<T>, b: &Array<T>| call_requires(*add_bias, (a, b)),
            forall|a: &Array<T>| call_requires(*relu, (a,)),
        ensures
            layer_recorded(
                *final(tape),
                self.params@,
                x,
                base,
                i as int,
                *matmul,
                *add_bias,
                *relu,
            ),
            agrees_below(*old(tape), *final(tape), old(tape).size() as int),
            no_grads_from(*final(tape), old(tape).size() as int),
            nh.0 == param_pos(base, i as int) + 1 + (if i % 2 == 1 && i + 1 < self.params@.len() {
                1int
            } else {
                0int
            }),
            final(tape).size() == nh.0 + 1,
    {
        proof {
            assert(layer_input(x, base, i as int) < param_pos(base, i as int));
        }
        let ghost t_start = *tape;
        let pid = tape.param(copy_array(&self.params[i]));
        let ghost t1 = *tape;
        let mut ins: Vec<Id> = Vec::new();
        ins.push(h);
        ins.push(pid);
        assert(ins@ =~= seq![h, pid]);
        let mut nh;
        if i % 2 == 0 {
            let v = matmul(tape.value(h), tape.value(pid));
            nh = tape.push(Kind::MatMul, ins, None, v);
        } else {
            let v = add_bias(tape.value(h), tape.value(pid));
            nh = tape.push(Kind::AddBias, ins, None, v);
            if i + 1 < self.params.len() {
                let mut rin: Vec<Id> = Vec::new();
                rin.push(nh);
                assert(rin@ =~= seq![nh]);
                let r = relu(tape.value(nh));
                let ghost t2 = *tape;
                nh = tape.push(Kind::Relu, rin, None, r);
                assert(agrees_below(t2, *tape, t2.size() as int));
                assert(agrees_below(t1, t2, t1.size() as int));
                assert(agrees_below(t1, *tape, t1.size() as int));
            }
        }
        assert(agrees_below(t_start, t1, t_start.size() as int));
        assert(agrees_below(t1, *tape, t1.size() as int));
        nh
    }

    /// Records the forward pass on `tape`, starting from the value `x`, with
    /// `matmul`, `add_bias` and `relu` computing the values: returns the output
    /// and the handles of the recorded parameters. What the tape held before
    /// is left as it was, gradients and targets included, and no new node has
    /// a gradient yet.
    pub fn forward<M, B, R>(
        &self,
        tape: &mut Tape<Array<T>>,
        x: Id,
        matmul: M,
        add_bias: B,
        relu: R,
    ) -> (out: (Id, Vec<Id>)) where
        M: Fn(&Array<T>, &Array<T>) -> Array<T>,
        B: Fn(&Array<T>, &Array<T>) -> Array<T>,
        R: Fn(&Array<T>) -> Array<T>,

        requires
            x.0 < old(tape).size(),
            old(tape).size() + 3 * self.params@.len() <= usize::MAX,
            forall|a: &Array<T>, b: &Array<T>| call_requires(matmul, (a, b)),
            forall|a: &Array<T>, b: &Array<T>| call_requires(add_bias, (a, b)),
            forall|a: &Array<T>| call_requires(relu, (a,)),
        ensures
            out.1@.len() == self.params@.len(),
            forall|i: int|
                0 <= i < self.params@.len() ==> (#[trigger] out.1@[i]).0 == param_pos(
                    old(tape).size() as int,
                    i,
                ),
            out.0.0 == (if self.params@.len() == 0 {
                x.0 as int
            } else {
                param_pos(old(tape).size() as int, self.params@.len() - 1) + 1
            }),
            final(tape).size() == (if self.params@.len() == 0 {
                old(tape).size() as int
            } else {
                param_pos(old(tape).size() as int, self.params@.len() - 1) + 2
            }),
            forward_recorded(
                *final(tape),
                self.params@,
                x,
                old(tape).size() as int,
                self.params@.len() as int,
                matmul,
                add_bias,
                relu,
            ),
            agrees_below(*old(tape), *final(tape), old(tape).size() as int),
            no_grads_from(*final(tape), old(tape).size() as int),
    {
        let ghost base = tape.size() as int;
        let ghost t0 = *tape;
        let n = self.params.len();
        let mut ids: Vec<Id> = Vec::new();
        let mut h = x;
        let mut i: usize = 0;
        while i < n
            invariant
                n == self.params@.len(),
                base == t0.size(),
                t0 == *old(tape),
                x.0 < base,
                base + 3 * n <= usize::MAX,
                forall|a: &Array<T>, b: &Array<T>| call_requires(matmul, (a, b)),
                forall|a: &Array<T>, b: &Array<T>| call_requires(add_bias, (a, b)),
                forall|a: &Array<T>| call_requires(relu, (a,)),
                i <= n,
                ids@.len() == i,
                forall|q: int| 0 <= q < i ==> (#[trigger] ids@[q]).0 == param_pos(base, q),
                i < n ==> tape.size() == param_pos(base, i as int),
                i < n ==> h.0 == layer_input(x, base, i as int),
                i == n && n > 0 ==> tape.size() == param_pos(base, n - 1) + 2,
                i == n && n > 0 ==> h.0 == param_pos(base, n - 1) + 1,
                i == 0 ==> tape.size() == base && h == x,
                forward_recorded(*tape, self.params@, x, base, i as int, matmul, add_bias, relu),
                agrees_below(t0, *tape, base),
                no_grads_from(*tape, base),
            decreases n - i,
        {
            let ghost prev = *tape;
            let here = tape.len();
            proof {
                assert(param_pos(base, i as int) + 3 <= usize::MAX);
            }
            let nh = self.record_layer(tape, h, i, x, Ghost(base), &matmul, &add_bias, &relu);
            ids.push(Id(here));
            proof {
                assert forall|q: int| 0 <= q < i + 1 implies #[trigger] layer_recorded(
                    *tape,
                    self.params@,
                    x,
                    base,
                    q,
                    matmul,
                    add_bias,
                    relu,
                ) by {
                    if q < i {
                        lemma_layer_stable(
                            prev,
                            *tape,
                            self.params@,
                            x,
                            base,
                            q,
                            i as int,
                            matmul,
                            add_bias,
                            relu,
                        );
                    }
                }
                assert(param_pos(base, i + 1) == param_pos(base, i as int) + 2 + (if i % 2 == 1 {
                    1int
                } else {
                    0int
                }));
            }
            h = nh;
            i = i + 1;
        }
        (h, ids)
    }
}

impl<T: Copy> Mlp<T> {
    /// The output of the network on `x`: the forward pass recorded on a fresh
    /// tape that holds `x` as its only input.
    pub fn predict<M, B, R>(&self, x: &Array<T>, matmul: M, add_bias: B, relu: R) -> (y: Array<T>) where
        M: Fn(&Array<T>, &Array<T>) -> Array<T>,
        B: Fn(&Array<T>, &Array<T>) -> Array<T>,
        R: Fn(&Array<T>) -> Array<T>,

        requires
            1 + 3 * self.params@.len() <= usize::MAX,
            forall|a: &Array<T>, b: &Array<T>| call_requires(matmul, (a, b)),
            forall|a: &Array<T>, b: &Array<T>| call_requires(add_bias, (a, b)),
            forall|a: &Array<T>| call_requires(relu, (a,)),
        ensures
            exists|tape: Tape<Array<T>>|
                {
                    &&& tape.value_at(0).shape@ == x.shape@
                    &&& tape.value_at(0).data@ == x.data@
                    &&& forward_recorded(
                        tape,
                        self.params@,
                        Id(0),
                        1,
                        self.params@.len() as int,
                        matmul,
                        add_bias,
                        relu,
                    )
                    &&& y.shape@ == tape.value_at(
                        if self.params@.len() == 0 {
                            0
                        } else {
                            param_pos(1, self.params@.len() - 1) + 1
                        },
                    ).shape@
                    &&& y.data@ == tape.value_at(
                        if self.params@.len() == 0 {
                            0
                        } else {
                            param_pos(1, self.params@.len() - 1) + 1
                        },
                    ).data@
                },
    {
        let mut tape: Tape<Array<T>> = Tape::new();
        let xi = tape.input(copy_array(x));
        let ghost t1 = tape;
        let (o, _ids) = self.forward(&mut tape, xi, matmul, add_bias, relu);
        assert(tape.value_at(0) == t1.value_at(0));
        let y = copy_array(tape.value(o));
        y
    }
}

impl Mlp<u32> {
    /// The weight-file bytes of the parameters, their elements given as
    /// 32-bit words.
    pub fn save_bytes(&self) -> (b: Vec<u8>)
        ensures
            b@ == weights_bytes(views(self.params@)),
    {
        encode_params(self.params.as_slice())
    }

    /// Reads a perceptron from weight-file bytes: the parameters as
    /// `decode_params` reads them, and the widths that their shapes describe.
    pub fn load_bytes(bytes: &[u8]) -> (r: Result<Mlp<u32>, LoadError>)
        ensures
            match r {
                Ok(m) => {
                    &&& m.sizes@ == layer_sizes(shapes_of(m.params@))
                    &&& valid_views(views(m.params@))
                    &&& is_prefix(weights_bytes(views(m.params@)), bytes@)
                    &&& forall|vs: Seq<ArrayView>|
                        valid_views(vs) && is_prefix(weights_bytes(vs), bytes@) ==> vs == views(
                            m.params@,
                        )
                },
                Err(e) => {
                    &&& e == LoadError::UnexpectedEof
                    &&& forall|vs: Seq<ArrayView>|
                        valid_views(vs) ==> !is_prefix(weights_bytes(vs), bytes@)
                },
            },
    {
        let params = decode_params(bytes)?;
        let sizes = infer_sizes(&params);
        Ok(Mlp { sizes, params })
    }
}

} // verus!
