use vstd::prelude::*;

verus! {

/// The handle of a value recorded on a tape.
#[derive(Clone, Copy, PartialEq, Eq, Hash, Debug)]
pub struct Id(pub usize);

/// The operation that produced a recorded value.
#[derive(Clone, Copy, PartialEq, Eq, Debug)]
pub enum Kind {
    Input,
    MatMul,
    AddBias,
    Add,
    Relu,
    Tanh,
    Mse,
}

/// One recorded operation: its kind, the values it read and, for a loss, the
/// target it was measured against.
pub struct Node<V> {
    pub kind: Kind,
    pub inputs: Vec<Id>,
    pub target: Option<V>,
}

/// The number of inputs each kind of operation reads, and a loss carries its
/// target.
pub open spec fn arity_ok<V>(kind: Kind, n: nat, target: Option<V>) -> bool {
    match kind {
        Kind::Input => n == 0,
        Kind::MatMul => n == 2,
        Kind::AddBias => n == 2,
        Kind::Add => n == 2,
        Kind::Relu => n == 1,
        Kind::Tanh => n == 1,
        Kind::Mse => n == 1 && target is Some,
    }
}

/// The record of a computation for reverse-mode differentiation: one value,
/// one gradient slot and one node per operation, in the order they ran.
pub struct Tape<V> {
    values: Vec<V>,
    grads: Vec<Option<V>>,
    nodes: Vec<Node<V>>,
}

impl<V> Tape<V> {
    /// Every operation reads only values recorded before it, as many as its
    /// kind calls for.
    #[verifier::type_invariant]
    spec fn inv(self) -> bool {
        &&& self.values@.len() == self.grads@.len()
        &&& self.values@.len() == self.nodes@.len()
        &&& forall|i: int, k: int|
            0 <= i < self.nodes@.len() && 0 <= k < self.nodes@[i].inputs@.len() ==> (
            #[trigger] self.nodes@[i].inputs@[k]).0 < i
        &&& forall|i: int|
            0 <= i < self.nodes@.len() ==> arity_ok(
                (#[trigger] self.nodes@[i]).kind,
                self.nodes@[i].inputs@.len(),
                self.nodes@[i].target,
            )
    }

    /// The number of recorded values.
    pub closed spec fn size(&self) -> nat {
        self.values@.len()
    }

    /// The value recorded at position `i`.
    pub closed spec fn value_at(&self, i: int) -> V {
        self.values@[i]
    }

    /// The gradient accumulated at position `i`, if any.
    pub closed spec fn grad_at(&self, i: int) -> Option<V> {
        self.grads@[i]
    }

    /// The operation recorded at position `i`.
    pub closed spec fn kind_at(&self, i: int) -> Kind {
        self.nodes@[i].kind
    }

    /// The values the operation at position `i` read.
    pub closed spec fn inputs_at(&self, i: int) -> Seq<Id> {
        self.nodes@[i].inputs@
    }

    /// The target of the loss at position `i`, if it is one.
    pub closed spec fn target_at(&self, i: int) -> Option<V> {
        self.nodes@[i].target
    }

    /// An empty tape.
    pub fn new() -> (t: Tape<V>)
        ensures
            t.size() == 0,
    {
        Tape { values: Vec::new(), grads: Vec::new(), nodes: Vec::new() }
    }

    /// The number of recorded values.
    pub fn len(&self) -> (n: usize)
        ensures
            n == self.size(),
            well_recorded(*self),
    {
        proof {
            use_type_invariant(self);
        }
        self.values.len()
    }

    /// Records a value produced by `kind` from `inputs`; its gradient starts
    /// out empty.
    pub fn push(&mut self, kind: Kind, inputs: Vec<Id>, target: Option<V>, val: V) -> (id: Id)
        requires
            forall|k: int| 0 <= k < inputs@.len() ==> (#[trigger] inputs@[k]).0 < old(self).size(),
            arity_ok(kind, inputs@.len(), target),
        ensures
            id.0 == old(self).size(),
            final(self).size() == old(self).size() + 1,
            final(self).value_at(id.0 as int) == val,
            final(self).grad_at(id.0 as int) is None,
            final(self).kind_at(id.0 as int) == kind,
            final(self).inputs_at(id.0 as int) == inputs@,
            final(self).target_at(id.0 as int) == target,
            forall|i: int|
                0 <= i < old(self).size() ==> final(self).value_at(i) == old(self).value_at(i)
                    && final(self).grad_at(i) == old(self).grad_at(i) && final(self).kind_at(i)
                    == old(self).kind_at(i) && final(self).inputs_at(i) == old(self).inputs_at(i)
                    && final(self).target_at(i) == old(self).target_at(i),
    {
        proof {
            use_type_invariant(&*self);
        }
        let id = Id(self.values.len());
        let mut t = Tape::new();
        std::mem::swap(&mut t, self);
        let Tape { mut values, mut grads, mut nodes } = t;
        values.push(val);
        grads.push(None);
        nodes.push(Node { kind, inputs, target });
        *self = Tape { values, grads, nodes };
        id
    }

    /// Records an input value.
    pub fn input(&mut self, a: V) -> (id: Id)
        ensures
            id.0 == old(self).size(),
            final(self).size() == old(self).size() + 1,
            final(self).value_at(id.0 as int) == a,
            final(self).grad_at(id.0 as int) is None,
            final(self).kind_at(id.0 as int) == Kind::Input,
            final(self).inputs_at(id.0 as int).len() == 0,
            forall|i: int|
                0 <= i < old(self).size() ==> final(self).value_at(i) == old(self).value_at(i)
                    && final(self).grad_at(i) == old(self).grad_at(i) && final(self).kind_at(i)
                    == old(self).kind_at(i) && final(self).inputs_at(i) == old(self).inputs_at(i)
                    && final(self).target_at(i) == old(self).target_at(i),
    {
        self.push(Kind::Input, Vec::new(), None, a)
    }

    /// Records a parameter; on the tape it is an input like any other.
    pub fn param(&mut self, a: V) -> (id: Id)
        ensures
            id.0 == old(self).size(),
            final(self).size() == old(self).size() + 1,
            final(self).value_at(id.0 as int) == a,
            final(self).grad_at(id.0 as int) is None,
            final(self).kind_at(id.0 as int) == Kind::Input,
            final(self).inputs_at(id.0 as int).len() == 0,
            forall|i: int|
                0 <= i < old(self).size() ==> final(self).value_at(i) == old(self).value_at(i)
                    && final(self).grad_at(i) == old(self).grad_at(i) && final(self).kind_at(i)
                    == old(self).kind_at(i) && final(self).inputs_at(i) == old(self).inputs_at(i)
                    && final(self).target_at(i) == old(self).target_at(i),
    {
        self.push(Kind::Input, Vec::new(), None, a)
    }

    /// The recorded value.
    pub fn value(&self, id: Id) -> (v: &V)
        requires
            id.0 < self.size(),
        ensures
            *v == self.value_at(id.0 as int),
    {
        &self.values[id.0]
    }

    /// The gradient accumulated so far, if any.
    pub fn grad(&self, id: Id) -> (g: Option<&V>)
        requires
            id.0 < self.size(),
        ensures
            match g {
                Some(r) => self.grad_at(id.0 as int) == Some(*r),
                None => self.grad_at(id.0 as int) is None,
            },
    {
        proof {
            use_type_invariant(self);
        }
        match &self.grads[id.0] {
            Some(g) => Some(g),
            None => None,
        }
    }

    /// The kind of the operation that produced the value.
    pub fn kind(&self, id: Id) -> (k: Kind)
        requires
            id.0 < self.size(),
        ensures
            k == self.kind_at(id.0 as int),
    {
        proof {
            use_type_invariant(self);
        }
        self.nodes[id.0].kind
    }

    /// The values the operation read.
    pub fn inputs(&self, id: Id) -> (ins: &Vec<Id>)
        requires
            id.0 < self.size(),
        ensures
            ins@ == self.inputs_at(id.0 as int),
            forall|k: int| 0 <= k < ins@.len() ==> (#[trigger] ins@[k]).0 < id.0,
            arity_ok(self.kind_at(id.0 as int), ins@.len(), self.target_at(id.0 as int)),
    {
        proof {
            use_type_invariant(self);
        }
        &self.nodes[id.0].inputs
    }

    /// The target a loss was measured against.
    pub fn target(&self, id: Id) -> (t: &Option<V>)
        requires
            id.0 < self.size(),
        ensures
            *t == self.target_at(id.0 as int),
    {
        proof {
            use_type_invariant(self);
        }
        &self.nodes[id.0].target
    }

    /// Forgets every gradient.
    pub fn zero_grad(&mut self)
        ensures
            final(self).size() == old(self).size(),
            forall|i: int| 0 <= i < final(self).size() ==> final(self).grad_at(i) is None,
            forall|i: int|
                0 <= i < old(self).size() ==> final(self).value_at(i) == old(self).value_at(i)
                    && final(self).kind_at(i) == old(self).kind_at(i) && final(self).inputs_at(i)
                    == old(self).inputs_at(i) && final(self).target_at(i) == old(
                    self,
                ).target_at(i),
    {
        proof {
            use_type_invariant(&*self);
        }
        let mut t = Tape::new();
        std::mem::swap(&mut t, self);
        let Tape { values, grads, nodes } = t;
        let n = grads.len();
        let mut fresh: Vec<Option<V>> = Vec::new();
        let mut i: usize = 0;
        while i < n
            invariant
                i <= n,
                fresh@.len() == i,
                forall|k: int| 0 <= k < i ==> (#[trigger] fresh@[k]) is None,
            decreases n - i,
        {
            fresh.push(None);
            i = i + 1;
        }
        *self = Tape { values, grads: fresh, nodes };
    }

    /// Adds `g` to the gradient of `id` with `combine`, or sets it when there is
    /// none yet.
    pub fn accumulate<F: Fn(&V, &V) -> V>(&mut self, id: Id, g: V, combine: F)
        requires
            id.0 < old(self).size(),
            old(self).grad_at(id.0 as int) matches Some(o) ==> call_requires(combine, (&o, &g)),
        ensures
            accumulated(*old(self), *final(self), id.0 as int, g, combine),
    {
        self.add_grad(id, g, &combine)
    }

    fn add_grad<F: Fn(&V, &V) -> V>(&mut self, id: Id, g: V, combine: &F)
        requires
            id.0 < old(self).size(),
            old(self).grad_at(id.0 as int) matches Some(o) ==> call_requires(*combine, (&o, &g)),
        ensures
            accumulated(*old(self), *final(self), id.0 as int, g, *combine),
    {
        proof {
            use_type_invariant(&*self);
        }
        let new = match &self.grads[id.0] {
            Some(o) => combine(o, &g),
            None => g,
        };
        let mut t = Tape::new();
        std::mem::swap(&mut t, self);
        let Tape { values, mut grads, nodes } = t;
        grads.set(id.0, Some(new));
        *self = Tape { values, grads, nodes };
    }

    /// Replaces the gradient of `id`, if there is one, by `f` of it.
    pub fn update_grad<F: Fn(V) -> V>(&mut self, id: Id, f: F)
        requires
            id.0 < old(self).size(),
            old(self).grad_at(id.0 as int) matches Some(o) ==> call_requires(f, (o,)),
        ensures
            final(self).size() == old(self).size(),
            match old(self).grad_at(id.0 as int) {
                Some(o) => final(self).grad_at(id.0 as int) matches Some(n) && call_ensures(
                    f,
                    (o,),
                    n,
                ),
                None => final(self).grad_at(id.0 as int) is None,
            },
            forall|i: int|
                0 <= i < old(self).size() && i != id.0 ==> final(self).grad_at(i) == old(
                    self,
                ).grad_at(i),
            forall|i: int|
                0 <= i < old(self).size() ==> final(self).value_at(i) == old(self).value_at(i)
                    && final(self).kind_at(i) == old(self).kind_at(i) && final(self).inputs_at(i)
                    == old(self).inputs_at(i) && final(self).target_at(i) == old(
                    self,
                ).target_at(i),
    {
        proof {
            use_type_invariant(&*self);
        }
        let mut t = Tape::new();
        std::mem::swap(&mut t, self);
        let Tape { values, mut grads, nodes } = t;
        let mut slot: Option<V> = None;
        grads.set_and_swap(id.0, &mut slot);
        let updated = match slot {
            Some(o) => Some(f(o)),
            None => None,
        };
        grads.set(id.0, updated);
        *self = Tape { values, grads, nodes };
    }
}

/// The tapes hold the same values, operations, inputs and targets.
pub open spec fn same_record<V>(a: Tape<V>, b: Tape<V>) -> bool {
    &&& b.size() == a.size()
    &&& forall|i: int|
        0 <= i < a.size() ==> b.value_at(i) == a.value_at(i) && b.kind_at(i) == a.kind_at(i)
            && b.inputs_at(i) == a.inputs_at(i) && b.target_at(i) == a.target_at(i)
}

/// `b` is `a` with `g` added to the gradient at `id` by `combine`, or set there
/// when there was none; nothing else changes.
pub open spec fn accumulated<V, F: Fn(&V, &V) -> V>(
    a: Tape<V>,
    b: Tape<V>,
    id: int,
    g: V,
    combine: F,
) -> bool {
    &&& same_record(a, b)
    &&& forall|i: int| 0 <= i < a.size() && i != id ==> b.grad_at(i) == a.grad_at(i)
    &&& match a.grad_at(id) {
        Some(o) => b.grad_at(id) matches Some(n) && call_ensures(combine, (&o, &g), n),
        None => b.grad_at(id) == Some(g),
    }
}

/// `b` is `a` with one more operation recorded at `id`: of kind `kind`,
/// reading `inputs`, with target `target` and no gradient yet.
pub open spec fn appended<V>(
    a: Tape<V>,
    b: Tape<V>,
    id: Id,
    kind: Kind,
    inputs: Seq<Id>,
    target: Option<V>,
) -> bool {
    &&& id.0 == a.size()
    &&& b.size() == a.size() + 1
    &&& b.kind_at(id.0 as int) == kind
    &&& b.inputs_at(id.0 as int) == inputs
    &&& b.target_at(id.0 as int) == target
    &&& b.grad_at(id.0 as int) is None
    &&& forall|i: int|
        0 <= i < a.size() ==> b.value_at(i) == a.value_at(i) && b.grad_at(i) == a.grad_at(i)
            && b.kind_at(i) == a.kind_at(i) && b.inputs_at(i) == a.inputs_at(i) && b.target_at(i)
            == a.target_at(i)
}

/// One step of the backward sweep: the operation at `i` of `a` hands its
/// gradient on to its inputs, giving `b`. An operation without a gradient,
/// and an input, hand on nothing. A product `x * w` adds `g * transpose(w)`
/// to `x` and then `transpose(x) * g` to `w`; a bias `x + b` adds a copy of
/// `g` to `x` and then the row sums of `g` to `b`; a sum adds a copy of `g`
/// to each side; an activation adds `relu_grad(x, g)` or
/// `tanh_grad(output, g)` to its input; a loss adds `mse_grad(prediction,
/// target, g)` to the prediction.
pub open spec fn node_step<V: Clone, A, MM, TR, SR, RG, TG, MG>(
    a: Tape<V>,
    b: Tape<V>,
    i: int,
    add: A,
    matmul: MM,
    transpose: TR,
    sum_rows: SR,
    relu_grad: RG,
    tanh_grad: TG,
    mse_grad: MG,
) -> bool where
    A: Fn(&V, &V) -> V,
    MM: Fn(&V, &V) -> V,
    TR: Fn(&V) -> V,
    SR: Fn(&V) -> V,
    RG: Fn(&V, &V) -> V,
    TG: Fn(&V, &V) -> V,
    MG: Fn(&V, &V, &V) -> V,
 {
    let ins = a.inputs_at(i);
    match a.grad_at(i) {
        None => b == a,
        Some(g) => match a.kind_at(i) {
            Kind::Input => b == a,
            Kind::MatMul => exists|m: Tape<V>, wt: V, gx: V, xt: V, gw: V|
                {
                    &&& call_ensures(transpose, (&a.value_at(ins[1].0 as int),), wt)
                    &&& call_ensures(matmul, (&g, &wt), gx)
                    &&& call_ensures(transpose, (&a.value_at(ins[0].0 as int),), xt)
                    &&& call_ensures(matmul, (&xt, &g), gw)
                    &&& accumulated(a, m, ins[0].0 as int, gx, add)
                    &&& accumulated(m, b, ins[1].0 as int, gw, add)
                },
            Kind::AddBias => exists|m: Tape<V>, gx: V, gb: V|
                {
                    &&& cloned(g, gx)
                    &&& call_ensures(sum_rows, (&g,), gb)
                    &&& accumulated(a, m, ins[0].0 as int, gx, add)
                    &&& accumulated(m, b, ins[1].0 as int, gb, add)
                },
            Kind::Add => exists|m: Tape<V>, ga: V, gb: V|
                {
                    &&& cloned(g, ga)
                    &&& cloned(g, gb)
                    &&& accumulated(a, m, ins[0].0 as int, ga, add)
                    &&& accumulated(m, b, ins[1].0 as int, gb, add)
                },
            Kind::Relu => exists|gx: V|
                {
                    &&& call_ensures(relu_grad, (&a.value_at(ins[0].0 as int), &g), gx)
                    &&& accumulated(a, b, ins[0].0 as int, gx, add)
                },
            Kind::Tanh => exists|gx: V|
                {
                    &&& call_ensures(tanh_grad, (&a.value_at(i), &g), gx)
                    &&& accumulated(a, b, ins[0].0 as int, gx, add)
                },
            Kind::Mse => exists|gx: V|
                {
                    &&& call_ensures(
                        mse_grad,
                        (&a.value_at(ins[0].0 as int), &a.target_at(i)->0, &g),
                        gx,
                    )
                    &&& accumulated(a, b, ins[0].0 as int, gx, add)
                },
        },
    }
}

/// The backward sweep from `loss` turns `a` into `b`: `one` is added to the
/// gradient of `loss`, then every operation, from the last recorded down to
/// the first, hands its gradient on to its inputs by `node_step`.
pub open spec fn swept<V: Clone, A, MM, TR, SR, RG, TG, MG>(
    a: Tape<V>,
    b: Tape<V>,
    loss: Id,
    one: V,
    add: A,
    matmul: MM,
    transpose: TR,
    sum_rows: SR,
    relu_grad: RG,
    tanh_grad: TG,
    mse_grad: MG,
) -> bool where
    A: Fn(&V, &V) -> V,
    MM: Fn(&V, &V) -> V,
    TR: Fn(&V) -> V,
    SR: Fn(&V) -> V,
    RG: Fn(&V, &V) -> V,
    TG: Fn(&V, &V) -> V,
    MG: Fn(&V, &V, &V) -> V,
 {
    exists|ts: Seq<Tape<V>>|
        {
            &&& ts.len() == a.size() + 1
            &&& accumulated(a, ts[0], loss.0 as int, one, add)
            &&& forall|k: int|
                0 <= k < a.size() ==> #[trigger] node_step(
                    ts[k],
                    ts[k + 1],
                    a.size() - 1 - k,
                    add,
                    matmul,
                    transpose,
                    sum_rows,
                    relu_grad,
                    tanh_grad,
                    mse_grad,
                )
            &&& ts[a.size() as int] == b
        }
}

/// No value on the tape has a gradient.
pub open spec fn no_grads<V>(t: Tape<V>) -> bool {
    forall|i: int| 0 <= i < t.size() ==> (#[trigger] t.grad_at(i)) is None
}

/// Every operation on the tape reads only values recorded before it, as many
/// as its kind calls for.
pub open spec fn well_recorded<V>(t: Tape<V>) -> bool {
    &&& forall|i: int, k: int|
        0 <= i < t.size() && 0 <= k < t.inputs_at(i).len() ==> 0 <= (
        #[trigger] t.inputs_at(i)[k]).0 < i
    &&& forall|i: int|
        0 <= i < t.size() ==> arity_ok(#[trigger] t.kind_at(i), t.inputs_at(i).len(), t.target_at(i))
}

/// The value at `i` feeds the value at `l`: it is `l` itself, or an input of
/// an operation whose value feeds `l`.
pub open spec fn feeds<V>(t: Tape<V>, i: int, l: int) -> bool
    decreases l - i,
{
    if i >= l {
        i == l
    } else {
        exists|n: int, k: int|
            #![trigger t.inputs_at(n)[k]]
            i < n <= l && 0 <= k < t.inputs_at(n).len() && t.inputs_at(n)[k].0 == i && feeds(
                t,
                n,
                l,
            )
    }
}

/// A sweep after `zero_grad` gives what a sweep gives on a fresh copy of the
/// tape: two tapes that record the same operations and hold no gradient are
/// swept to the same results.
pub proof fn lemma_sweep_after_zero_grad<V: Clone, A, MM, TR, SR, RG, TG, MG>(
    z: Tape<V>,
    f: Tape<V>,
    b: Tape<V>,
    loss: Id,
    one: V,
    add: A,
    matmul: MM,
    transpose: TR,
    sum_rows: SR,
    relu_grad: RG,
    tanh_grad: TG,
    mse_grad: MG,
) where
    A: Fn(&V, &V) -> V,
    MM: Fn(&V, &V) -> V,
    TR: Fn(&V) -> V,
    SR: Fn(&V) -> V,
    RG: Fn(&V, &V) -> V,
    TG: Fn(&V, &V) -> V,
    MG: Fn(&V, &V, &V) -> V,

    requires
        same_record(z, f),
        no_grads(z),
        no_grads(f),
        loss.0 < z.size(),
    ensures
        swept(z, b, loss, one, add, matmul, transpose, sum_rows, relu_grad, tanh_grad, mse_grad)
            <==> swept(
            f,
            b,
            loss,
            one,
            add,
            matmul,
            transpose,
            sum_rows,
            relu_grad,
            tanh_grad,
            mse_grad,
        ),
{
    assert forall|t: Tape<V>|
        accumulated(z, t, loss.0 as int, one, add) <==> accumulated(
            f,
            t,
            loss.0 as int,
            one,
            add,
        ) by {
        assert(z.grad_at(loss.0 as int) is None);
        assert(f.grad_at(loss.0 as int) is None);
        if accumulated(z, t, loss.0 as int, one, add) {
            assert forall|i: int| 0 <= i < f.size() && i != loss.0 implies t.grad_at(i)
                == f.grad_at(i) by {
                assert(z.grad_at(i) is None);
                assert(f.grad_at(i) is None);
            }
        }
        if accumulated(f, t, loss.0 as int, one, add) {
            assert forall|i: int| 0 <= i < z.size() && i != loss.0 implies t.grad_at(i)
                == z.grad_at(i) by {
                assert(z.grad_at(i) is None);
                assert(f.grad_at(i) is None);
            }
        }
    }
}

/// The value at `i` is `l`, or an input of an operation at position `lo` or
/// later whose value feeds `l`.
pub open spec fn fed_from<V>(t: Tape<V>, l: int, lo: int, i: int) -> bool {
    i == l || exists|n: int, k: int|
        #![trigger t.inputs_at(n)[k]]
        lo <= n < t.size() && i < n && 0 <= k < t.inputs_at(n).len() && t.inputs_at(n)[k].0 == i
            && feeds(t, n, l)
}

proof fn lemma_fed_from_feeds<V>(t: Tape<V>, l: int, lo: int, i: int)
    requires
        0 <= l < t.size(),
        0 <= i < t.size(),
        lo <= i + 1,
    ensures
        fed_from(t, l, lo, i) <==> feeds(t, i, l),
{
    if i < l {
        assert(feeds(t, i, l) == exists|n: int, k: int|
            #![trigger t.inputs_at(n)[k]]
            i < n <= l && 0 <= k < t.inputs_at(n).len() && t.inputs_at(n)[k].0 == i && feeds(
                t,
                n,
                l,
            ));
        if feeds(t, i, l) {
            let (n, k) = choose|n: int, k: int|
                #![trigger t.inputs_at(n)[k]]
                i < n <= l && 0 <= k < t.inputs_at(n).len() && t.inputs_at(n)[k].0 == i && feeds(
                    t,
                    n,
                    l,
                );
            assert(t.inputs_at(n)[k].0 == i);
        }
        if fed_from(t, l, lo, i) {
            let (n, k) = choose|n: int, k: int|
                #![trigger t.inputs_at(n)[k]]
                lo <= n < t.size() && i < n && 0 <= k < t.inputs_at(n).len() && t.inputs_at(n)[k].0
                    == i && feeds(t, n, l);
            assert(n <= l);
            assert(t.inputs_at(n)[k].0 == i);
        }
    } else if i > l {
        if fed_from(t, l, lo, i) {
            let (n, k) = choose|n: int, k: int|
                #![trigger t.inputs_at(n)[k]]
                lo <= n < t.size() && i < n && 0 <= k < t.inputs_at(n).len() && t.inputs_at(n)[k].0
                    == i && feeds(t, n, l);
            assert(!feeds(t, n, l));
        }
    }
}

proof fn lemma_accumulated_some<V, F: Fn(&V, &V) -> V>(
    a: Tape<V>,
    b: Tape<V>,
    id: int,
    g: V,
    add: F,
)
    requires
        accumulated(a, b, id, g, add),
        0 <= id < a.size(),
    ensures
        same_record(a, b),
        forall|i: int|
            0 <= i < a.size() ==> (b.grad_at(i) is Some <==> (a.grad_at(i) is Some || i == id)),
{
}

/// One sweep step gives a gradient to exactly the inputs of the operation,
/// when the operation has one itself.
proof fn lemma_step_some<V: Clone, A, MM, TR, SR, RG, TG, MG>(
    a: Tape<V>,
    b: Tape<V>,
    n: int,
    add: A,
    matmul: MM,
    transpose: TR,
    sum_rows: SR,
    relu_grad: RG,
    tanh_grad: TG,
    mse_grad: MG,
) where
    A: Fn(&V, &V) -> V,
    MM: Fn(&V, &V) -> V,
    TR: Fn(&V) -> V,
    SR: Fn(&V) -> V,
    RG: Fn(&V, &V) -> V,
    TG: Fn(&V, &V) -> V,
    MG: Fn(&V, &V, &V) -> V,

    requires
        node_step(a, b, n, add, matmul, transpose, sum_rows, relu_grad, tanh_grad, mse_grad),
        0 <= n < a.size(),
        arity_ok(a.kind_at(n), a.inputs_at(n).len(), a.target_at(n)),
        forall|k: int|
            0 <= k < a.inputs_at(n).len() ==> 0 <= (#[trigger] a.inputs_at(n)[k]).0 < n,
    ensures
        same_record(a, b),
        forall|i: int|
            0 <= i < a.size() ==> (b.grad_at(i) is Some <==> (a.grad_at(i) is Some || (
            a.grad_at(n) is Some && exists|k: int|
                0 <= k < a.inputs_at(n).len() && (#[trigger] a.inputs_at(n)[k]).0 == i))),
{
    lemma_step_keeps_record(
        a,
        b,
        n,
        add,
        matmul,
        transpose,
        sum_rows,
        relu_grad,
        tanh_grad,
        mse_grad,
    );
    let ins = a.inputs_at(n);
    if a.grad_at(n) is Some && a.kind_at(n) != Kind::Input {
        match a.kind_at(n) {
            Kind::MatMul => {
                let (m, wt, gx, xt, gw) = choose|m: Tape<V>, wt: V, gx: V, xt: V, gw: V|
                    {
                        &&& call_ensures(transpose, (&a.value_at(ins[1].0 as int),), wt)
                        &&& call_ensures(matmul, (&a.grad_at(n)->0, &wt), gx)
                        &&& call_ensures(transpose, (&a.value_at(ins[0].0 as int),), xt)
                        &&& call_ensures(matmul, (&xt, &a.grad_at(n)->0), gw)
                        &&& accumulated(a, m, ins[0].0 as int, gx, add)
                        &&& accumulated(m, b, ins[1].0 as int, gw, add)
                    };
                assert(0 <= ins[0].0 < n && 0 <= ins[1].0 < n);
                lemma_accumulated_some(a, m, ins[0].0 as int, gx, add);
                lemma_accumulated_some(m, b, ins[1].0 as int, gw, add);
                assert forall|i: int| 0 <= i < a.size() implies (b.grad_at(i) is Some <==> (
                a.grad_at(i) is Some || exists|k: int|
                    0 <= k < ins.len() && (#[trigger] ins[k]).0 == i)) by {
                    if i == ins[0].0 {
                        assert(ins[0].0 == i);
                    }
                    if i == ins[1].0 {
                        assert(ins[1].0 == i);
                    }
                }
            },
            Kind::AddBias => {
                let (m, gx, gb) = choose|m: Tape<V>, gx: V, gb: V|
                    {
                        &&& cloned(a.grad_at(n)->0, gx)
                        &&& call_ensures(sum_rows, (&a.grad_at(n)->0,), gb)
                        &&& accumulated(a, m, ins[0].0 as int, gx, add)
                        &&& accumulated(m, b, ins[1].0 as int, gb, add)
                    };
                assert(0 <= ins[0].0 < n && 0 <= ins[1].0 < n);
                lemma_accumulated_some(a, m, ins[0].0 as int, gx, add);
                lemma_accumulated_some(m, b, ins[1].0 as int, gb, add);
                assert forall|i: int| 0 <= i < a.size() implies (b.grad_at(i) is Some <==> (
                a.grad_at(i) is Some || exists|k: int|
                    0 <= k < ins.len() && (#[trigger] ins[k]).0 == i)) by {
                    if i == ins[0].0 {
                        assert(ins[0].0 == i);
                    }
                    if i == ins[1].0 {
                        assert(ins[1].0 == i);
                    }
                }
            },
            Kind::Add => {
                let (m, ga, gb) = choose|m: Tape<V>, ga: V, gb: V|
                    {
                        &&& cloned(a.grad_at(n)->0, ga)
                        &&& cloned(a.grad_at(n)->0, gb)
                        &&& accumulated(a, m, ins[0].0 as int, ga, add)
                        &&& accumulated(m, b, ins[1].0 as int, gb, add)
                    };
                assert(0 <= ins[0].0 < n && 0 <= ins[1].0 < n);
                lemma_accumulated_some(a, m, ins[0].0 as int, ga, add);
                lemma_accumulated_some(m, b, ins[1].0 as int, gb, add);
                assert forall|i: int| 0 <= i < a.size() implies (b.grad_at(i) is Some <==> (
                a.grad_at(i) is Some || exists|k: int|
                    0 <= k < ins.len() && (#[trigger] ins[k]).0 == i)) by {
                    if i == ins[0].0 {
                        assert(ins[0].0 == i);
                    }
                    if i == ins[1].0 {
                        assert(ins[1].0 == i);
                    }
                }
            },
            _ => {
                assert(ins.len() == 1);
                assert(0 <= ins[0].0 < n);
                let gx = choose|gx: V| accumulated(a, b, ins[0].0 as int, gx, add);
                lemma_accumulated_some(a, b, ins[0].0 as int, gx, add);
                assert forall|i: int| 0 <= i < a.size() implies (b.grad_at(i) is Some <==> (
                a.grad_at(i) is Some || exists|k: int|
                    0 <= k < ins.len() && (#[trigger] ins[k]).0 == i)) by {
                    if i == ins[0].0 {
                        assert(ins[0].0 == i);
                    }
                }
            },
        }
    }
}

proof fn lemma_sweep_prefix_some<V: Clone, A, MM, TR, SR, RG, TG, MG>(
    a: Tape<V>,
    ts: Seq<Tape<V>>,
    loss: Id,
    one: V,
    j: int,
    add: A,
    matmul: MM,
    transpose: TR,
    sum_rows: SR,
    relu_grad: RG,
    tanh_grad: TG,
    mse_grad: MG,
) where
    A: Fn(&V, &V) -> V,
    MM: Fn(&V, &V) -> V,
    TR: Fn(&V) -> V,
    SR: Fn(&V) -> V,
    RG: Fn(&V, &V) -> V,
    TG: Fn(&V, &V) -> V,
    MG: Fn(&V, &V, &V) -> V,

    requires
        well_recorded(a),
        no_grads(a),
        loss.0 < a.size(),
        0 <= j <= a.size(),
        ts.len() == a.size() + 1,
        accumulated(a, ts[0], loss.0 as int, one, add),
        forall|k: int|
            0 <= k < a.size() ==> #[trigger] node_step(
                ts[k],
                ts[k + 1],
                a.size() - 1 - k,
                add,
                matmul,
                transpose,
                sum_rows,
                relu_grad,
                tanh_grad,
                mse_grad,
            ),
    ensures
        same_record(a, ts[j]),
        forall|i: int|
            0 <= i < a.size() ==> ((#[trigger] ts[j].grad_at(i)) is Some <==> fed_from(
                a,
                loss.0 as int,
                a.size() - j,
                i,
            )),
    decreases j,
{
    let size = a.size() as int;
    let l = loss.0 as int;
    if j == 0 {
        lemma_accumulated_some(a, ts[0], l, one, add);
        assert forall|i: int| 0 <= i < size implies ((#[trigger] ts[0].grad_at(i)) is Some
            <==> fed_from(a, l, size, i)) by {
            assert(a.grad_at(i) is None);
        }
    } else {
        lemma_sweep_prefix_some(
            a,
            ts,
            loss,
            one,
            j - 1,
            add,
            matmul,
            transpose,
            sum_rows,
            relu_grad,
            tanh_grad,
            mse_grad,
        );
        let n = size - j;
        let ta = ts[j - 1];
        let q = j - 1;
        assert(node_step(
            ts[q],
            ts[q + 1],
            a.size() - 1 - q,
            add,
            matmul,
            transpose,
            sum_rows,
            relu_grad,
            tanh_grad,
            mse_grad,
        ));
        assert(arity_ok(a.kind_at(n), a.inputs_at(n).len(), a.target_at(n)));
        assert forall|k: int| 0 <= k < ta.inputs_at(n).len() implies 0 <= (
        #[trigger] ta.inputs_at(n)[k]).0 < n by {
            assert(a.inputs_at(n)[k] == ta.inputs_at(n)[k]);
        }
        lemma_step_some(
            ta,
            ts[j],
            n,
            add,
            matmul,
            transpose,
            sum_rows,
            relu_grad,
            tanh_grad,
            mse_grad,
        );
        assert(ta.grad_at(n) is Some <==> fed_from(a, l, n + 1, n));
        lemma_fed_from_feeds(a, l, n + 1, n);
        assert forall|i: int| 0 <= i < size implies ((#[trigger] ts[j].grad_at(i)) is Some
            <==> fed_from(a, l, n, i)) by {
            assert(ta.grad_at(i) is Some <==> fed_from(a, l, n + 1, i));
            if fed_from(a, l, n, i) && !fed_from(a, l, n + 1, i) {
                let (m, k) = choose|m: int, k: int|
                    #![trigger a.inputs_at(m)[k]]
                    n <= m < a.size() && i < m && 0 <= k < a.inputs_at(m).len()
                        && a.inputs_at(m)[k].0 == i && feeds(a, m, l);
                assert(m == n);
                assert(ta.inputs_at(n)[k].0 == i);
            }
            if ts[j].grad_at(i) is Some && !(ta.grad_at(i) is Some) {
                let k = choose|k: int|
                    0 <= k < ta.inputs_at(n).len() && (#[trigger] ta.inputs_at(n)[k]).0 == i;
                assert(a.inputs_at(n)[k].0 == i);
                assert(i < n);
            }
        }
    }
}

/// After a backward sweep from `loss` over a tape that held no gradient, a
/// value has a gradient exactly when it feeds the loss: it is the loss, or an
/// input of an operation whose value feeds the loss.
pub proof fn lemma_sweep_reaches<V: Clone, A, MM, TR, SR, RG, TG, MG>(
    a: Tape<V>,
    b: Tape<V>,
    loss: Id,
    one: V,
    add: A,
    matmul: MM,
    transpose: TR,
    sum_rows: SR,
    relu_grad: RG,
    tanh_grad: TG,
    mse_grad: MG,
) where
    A: Fn(&V, &V) -> V,
    MM: Fn(&V, &V) -> V,
    TR: Fn(&V) -> V,
    SR: Fn(&V) -> V,
    RG: Fn(&V, &V) -> V,
    TG: Fn(&V, &V) -> V,
    MG: Fn(&V, &V, &V) -> V,

    requires
        well_recorded(a),
        no_grads(a),
        loss.0 < a.size(),
        swept(a, b, loss, one, add, matmul, transpose, sum_rows, relu_grad, tanh_grad, mse_grad),
    ensures
        forall|i: int|
            0 <= i < a.size() ==> ((#[trigger] b.grad_at(i)) is Some <==> feeds(
                a,
                i,
                loss.0 as int,
            )),
{
    let ts = choose|ts: Seq<Tape<V>>|
        {
            &&& ts.len() == a.size() + 1
            &&& accumulated(a, ts[0], loss.0 as int, one, add)
            &&& forall|k: int|
                0 <= k < a.size() ==> #[trigger] node_step(
                    ts[k],
                    ts[k + 1],
                    a.size() - 1 - k,
                    add,
                    matmul,
                    transpose,
                    sum_rows,
                    relu_grad,
                    tanh_grad,
                    mse_grad,
                )
            &&& ts[a.size() as int] == b
        };
    lemma_sweep_prefix_some(
        a,
        ts,
        loss,
        one,
        a.size() as int,
        add,
        matmul,
        transpose,
        sum_rows,
        relu_grad,
        tanh_grad,
        mse_grad,
    );
    assert forall|i: int| 0 <= i < a.size() implies ((#[trigger] b.grad_at(i)) is Some
        <==> feeds(a, i, loss.0 as int)) by {
        assert(ts[a.size() as int].grad_at(i) is Some <==> fed_from(a, loss.0 as int, 0, i));
        lemma_fed_from_feeds(a, loss.0 as int, 0, i);
    }
}

/// Adding `c` into a gradient slot that held `p` can leave `r`: `c` itself in
/// an empty slot, otherwise a sum of `p` and `c` by `add`.
pub open spec fn adds_to<V, F: Fn(&V, &V) -> V>(add: F, p: Option<V>, c: V, r: Option<V>) -> bool {
    match p {
        None => r == Some(c),
        Some(o) => r matches Some(v) && call_ensures(add, (&o, &c), v),
    }
}

/// Adding up the terms `cs` in order with `add`, starting from an empty
/// slot, can leave `r`.
pub open spec fn sums_to<V, F: Fn(&V, &V) -> V>(add: F, cs: Seq<V>, r: Option<V>) -> bool
    decreases cs.len(),
{
    if cs.len() == 0 {
        r is None
    } else {
        exists|p: Option<V>|
            #![trigger adds_to(add, p, cs.last(), r)]
            sums_to(add, cs.drop_last(), p) && adds_to(add, p, cs.last(), r)
    }
}

/// The uses of the value at `x` by the operation at `n` that the sweep hands
/// a gradient through: `(n, k)` for every input position `k` that reads `x`,
/// in order, when the operation has a gradient.
pub open spec fn uses_at<V>(t: Tape<V>, x: int, n: int) -> Seq<(int, int)> {
    let ins = t.inputs_at(n);
    if t.grad_at(n) is None || t.kind_at(n) == Kind::Input {
        Seq::empty()
    } else {
        (if ins.len() > 0 && ins[0].0 == x {
            seq![(n, 0int)]
        } else {
            Seq::empty()
        }) + (if ins.len() > 1 && ins[1].0 == x {
            seq![(n, 1int)]
        } else {
            Seq::empty()
        })
    }
}

/// The uses of `x` by the operations at `n` and after, in the order the sweep
/// meets them: from the last operation down.
pub open spec fn uses_from<V>(t: Tape<V>, x: int, n: int) -> Seq<(int, int)>
    decreases t.size() - n,
{
    if n >= t.size() {
        Seq::empty()
    } else {
        uses_from(t, x, n + 1) + uses_at(t, x, n)
    }
}

/// `c` is what the operation at `n` of `t` hands to its input `k` from its
/// gradient, by the rule of its kind.
pub open spec fn hands_on<V, MM, TR, SR, RG, TG, MG>(
    t: Tape<V>,
    n: int,
    k: int,
    c: V,
    matmul: MM,
    transpose: TR,
    sum_rows: SR,
    relu_grad: RG,
    tanh_grad: TG,
    mse_grad: MG,
) -> bool where
    V: Clone,
    MM: Fn(&V, &V) -> V,
    TR: Fn(&V) -> V,
    SR: Fn(&V) -> V,
    RG: Fn(&V, &V) -> V,
    TG: Fn(&V, &V) -> V,
    MG: Fn(&V, &V, &V) -> V,
 {
    let g = t.grad_at(n)->0;
    let ins = t.inputs_at(n);
    match t.kind_at(n) {
        Kind::Input => false,
        Kind::MatMul => if k == 0 {
            exists|wt: V|
                call_ensures(transpose, (&t.value_at(ins[1].0 as int),), wt) && call_ensures(
                    matmul,
                    (&g, &wt),
                    c,
                )
        } else {
            exists|xt: V|
                call_ensures(transpose, (&t.value_at(ins[0].0 as int),), xt) && call_ensures(
                    matmul,
                    (&xt, &g),
                    c,
                )
        },
        Kind::AddBias => if k == 0 {
            cloned(g, c)
        } else {
            call_ensures(sum_rows, (&g,), c)
        },
        Kind::Add => cloned(g, c),
        Kind::Relu => call_ensures(relu_grad, (&t.value_at(ins[0].0 as int), &g), c),
        Kind::Tanh => call_ensures(tanh_grad, (&t.value_at(n), &g), c),
        Kind::Mse => call_ensures(mse_grad, (&t.value_at(ins[0].0 as int), &t.target_at(n)->0, &g), c),
    }
}

/// The terms that make up the gradient of `x` after a sweep from `loss` that
/// ends in `b`: the seed `one` first when `x` is the loss, then, for every use
/// of `x` in sweep order, what that use hands on.
pub open spec fn gradient_terms<V, MM, TR, SR, RG, TG, MG>(
    b: Tape<V>,
    x: int,
    loss: Id,
    one: V,
    cs: Seq<V>,
    matmul: MM,
    transpose: TR,
    sum_rows: SR,
    relu_grad: RG,
    tanh_grad: TG,
    mse_grad: MG,
) -> bool where
    V: Clone,
    MM: Fn(&V, &V) -> V,
    TR: Fn(&V) -> V,
    SR: Fn(&V) -> V,
    RG: Fn(&V, &V) -> V,
    TG: Fn(&V, &V) -> V,
    MG: Fn(&V, &V, &V) -> V,
 {
    let us = uses_from(b, x, 0);
    let off: int = if x == loss.0 {
        1
    } else {
        0
    };
    &&& cs.len() == off + us.len()
    &&& x == loss.0 ==> cs[0] == one
    &&& forall|u: int|
        0 <= u < us.len() ==> hands_on(
            b,
            (#[trigger] us[u]).0,
            us[u].1,
            cs[off + u],
            matmul,
            transpose,
            sum_rows,
            relu_grad,
            tanh_grad,
            mse_grad,
        )
}

proof fn lemma_sums_push<V, F: Fn(&V, &V) -> V>(
    add: F,
    cs: Seq<V>,
    p: Option<V>,
    c: V,
    r: Option<V>,
)
    requires
        sums_to(add, cs, p),
        adds_to(add, p, c, r),
    ensures
        sums_to(add, cs.push(c), r),
{
    assert(cs.push(c).drop_last() =~= cs);
    assert(cs.push(c).last() == c);
    assert(sums_to(add, cs.push(c).drop_last(), p));
    assert(adds_to(add, p, cs.push(c).last(), r));
}

proof fn lemma_accumulated_adds<V, F: Fn(&V, &V) -> V>(
    a: Tape<V>,
    b: Tape<V>,
    id: int,
    g: V,
    add: F,
    cs: Seq<V>,
    x: int,
)
    requires
        accumulated(a, b, id, g, add),
        0 <= id < a.size(),
        0 <= x < a.size(),
        sums_to(add, cs, a.grad_at(x)),
    ensures
        sums_to(add, cs + (if x == id { seq![g] } else { Seq::empty() }), b.grad_at(x)),
{
    if x == id {
        lemma_sums_push(add, cs, a.grad_at(x), g, b.grad_at(x));
        assert(cs + seq![g] =~= cs.push(g));
    } else {
        assert(cs + Seq::<V>::empty() =~= cs);
    }
}

/// The terms a use at position `k` of an operation adds when it reads `x`.
pub open spec fn term_if<V>(x: int, input: int, c: V) -> Seq<V> {
    if x == input {
        seq![c]
    } else {
        Seq::empty()
    }
}

proof fn lemma_two_adds<V, F: Fn(&V, &V) -> V>(
    a: Tape<V>,
    m: Tape<V>,
    b: Tape<V>,
    i0: int,
    i1: int,
    g0: V,
    g1: V,
    add: F,
    cs: Seq<V>,
    x: int,
)
    requires
        accumulated(a, m, i0, g0, add),
        accumulated(m, b, i1, g1, add),
        0 <= i0 < a.size(),
        0 <= i1 < a.size(),
        0 <= x < a.size(),
        sums_to(add, cs, a.grad_at(x)),
    ensures
        sums_to(add, cs + (term_if(x, i0, g0) + term_if(x, i1, g1)), b.grad_at(x)),
{
    lemma_accumulated_adds(a, m, i0, g0, add, cs, x);
    lemma_accumulated_adds(m, b, i1, g1, add, cs + term_if(x, i0, g0), x);
    assert(cs + term_if(x, i0, g0) + term_if(x, i1, g1) =~= cs + (term_if(x, i0, g0) + term_if(
        x,
        i1,
        g1,
    )));
}

/// One sweep step adds to the gradient of `x` what each use of `x` by the
/// operation at `n` hands on, in input order.
proof fn lemma_step_terms<V: Clone, A, MM, TR, SR, RG, TG, MG>(
    a: Tape<V>,
    b: Tape<V>,
    n: int,
    x: int,
    cs: Seq<V>,
    add: A,
    matmul: MM,
    transpose: TR,
    sum_rows: SR,
    relu_grad: RG,
    tanh_grad: TG,
    mse_grad: MG,
) -> (new: Seq<V>) where
    A: Fn(&V, &V) -> V,
    MM: Fn(&V, &V) -> V,
    TR: Fn(&V) -> V,
    SR: Fn(&V) -> V,
    RG: Fn(&V, &V) -> V,
    TG: Fn(&V, &V) -> V,
    MG: Fn(&V, &V, &V) -> V,

    requires
        node_step(a, b, n, add, matmul, transpose, sum_rows, relu_grad, tanh_grad, mse_grad),
        0 <= n < a.size(),
        arity_ok(a.kind_at(n), a.inputs_at(n).len(), a.target_at(n)),
        forall|k: int|
            0 <= k < a.inputs_at(n).len() ==> 0 <= (#[trigger] a.inputs_at(n)[k]).0 < n,
        0 <= x < a.size(),
        sums_to(add, cs, a.grad_at(x)),
    ensures
        new.len() == uses_at(a, x, n).len(),
        forall|u: int|
            0 <= u < new.len() ==> hands_on(
                a,
                (#[trigger] uses_at(a, x, n)[u]).0,
                uses_at(a, x, n)[u].1,
                new[u],
                matmul,
                transpose,
                sum_rows,
                relu_grad,
                tanh_grad,
                mse_grad,
            ),
        sums_to(add, cs + new, b.grad_at(x)),
{
    let ins = a.inputs_at(n);
    let us = uses_at(a, x, n);
    if a.grad_at(n) is None || a.kind_at(n) == Kind::Input {
        assert(cs + Seq::<V>::empty() =~= cs);
        Seq::empty()
    } else {
        let g = a.grad_at(n)->0;
        match a.kind_at(n) {
            Kind::MatMul => {
                let (m, wt, gx, xt, gw) = choose|m: Tape<V>, wt: V, gx: V, xt: V, gw: V|
                    {
                        &&& call_ensures(transpose, (&a.value_at(ins[1].0 as int),), wt)
                        &&& call_ensures(matmul, (&g, &wt), gx)
                        &&& call_ensures(transpose, (&a.value_at(ins[0].0 as int),), xt)
                        &&& call_ensures(matmul, (&xt, &g), gw)
                        &&& accumulated(a, m, ins[0].0 as int, gx, add)
                        &&& accumulated(m, b, ins[1].0 as int, gw, add)
                    };
                assert(0 <= ins[0].0 < n && 0 <= ins[1].0 < n);
                lemma_two_adds(a, m, b, ins[0].0 as int, ins[1].0 as int, gx, gw, add, cs, x);
                let new = term_if(x, ins[0].0 as int, gx) + term_if(x, ins[1].0 as int, gw);
                assert(hands_on(a, n, 0, gx, matmul, transpose, sum_rows, relu_grad, tanh_grad, mse_grad));
                assert(hands_on(a, n, 1, gw, matmul, transpose, sum_rows, relu_grad, tanh_grad, mse_grad));
                assert(new.len() == us.len());
                new
            },
            Kind::AddBias => {
                let (m, gx, gb) = choose|m: Tape<V>, gx: V, gb: V|
                    {
                        &&& cloned(g, gx)
                        &&& call_ensures(sum_rows, (&g,), gb)
                        &&& accumulated(a, m, ins[0].0 as int, gx, add)
                        &&& accumulated(m, b, ins[1].0 as int, gb, add)
                    };
                assert(0 <= ins[0].0 < n && 0 <= ins[1].0 < n);
                lemma_two_adds(a, m, b, ins[0].0 as int, ins[1].0 as int, gx, gb, add, cs, x);
                let new = term_if(x, ins[0].0 as int, gx) + term_if(x, ins[1].0 as int, gb);
                assert(new.len() == us.len());
                new
            },
            Kind::Add => {
                let (m, ga, gb) = choose|m: Tape<V>, ga: V, gb: V|
                    {
                        &&& cloned(g, ga)
                        &&& cloned(g, gb)
                        &&& accumulated(a, m, ins[0].0 as int, ga, add)
                        &&& accumulated(m, b, ins[1].0 as int, gb, add)
                    };
                assert(0 <= ins[0].0 < n && 0 <= ins[1].0 < n);
                lemma_two_adds(a, m, b, ins[0].0 as int, ins[1].0 as int, ga, gb, add, cs, x);
                let new = term_if(x, ins[0].0 as int, ga) + term_if(x, ins[1].0 as int, gb);
                assert(new.len() == us.len());
                new
            },
            Kind::Relu => {
                let gx = choose|gx: V|
                    {
                        &&& call_ensures(relu_grad, (&a.value_at(ins[0].0 as int), &g), gx)
                        &&& accumulated(a, b, ins[0].0 as int, gx, add)
                    };
                assert(0 <= ins[0].0 < n);
                lemma_accumulated_adds(a, b, ins[0].0 as int, gx, add, cs, x);
                let new = term_if(x, ins[0].0 as int, gx);
                assert(us =~= (if ins[0].0 == x { seq![(n, 0int)] } else { Seq::empty() }));
                new
            },
            Kind::Tanh => {
                let gx = choose|gx: V|
                    {
                        &&& call_ensures(tanh_grad, (&a.value_at(n), &g), gx)
                        &&& accumulated(a, b, ins[0].0 as int, gx, add)
                    };
                assert(0 <= ins[0].0 < n);
                lemma_accumulated_adds(a, b, ins[0].0 as int, gx, add, cs, x);
                let new = term_if(x, ins[0].0 as int, gx);
                assert(us =~= (if ins[0].0 == x { seq![(n, 0int)] } else { Seq::empty() }));
                new
            },
            Kind::Mse => {
                let gx = choose|gx: V|
                    {
                        &&& call_ensures(
                            mse_grad,
                            (&a.value_at(ins[0].0 as int), &a.target_at(n)->0, &g),
                            gx,
                        )
                        &&& accumulated(a, b, ins[0].0 as int, gx, add)
                    };
                assert(0 <= ins[0].0 < n);
                lemma_accumulated_adds(a, b, ins[0].0 as int, gx, add, cs, x);
                let new = term_if(x, ins[0].0 as int, gx);
                assert(us =~= (if ins[0].0 == x { seq![(n, 0int)] } else { Seq::empty() }));
                new
            },
            Kind::Input => Seq::empty(),
        }
    }
}

proof fn lemma_step_frame<V: Clone, A, MM, TR, SR, RG, TG, MG>(
    a: Tape<V>,
    b: Tape<V>,
    n: int,
    add: A,
    matmul: MM,
    transpose: TR,
    sum_rows: SR,
    relu_grad: RG,
    tanh_grad: TG,
    mse_grad: MG,
) where
    A: Fn(&V, &V) -> V,
    MM: Fn(&V, &V) -> V,
    TR: Fn(&V) -> V,
    SR: Fn(&V) -> V,
    RG: Fn(&V, &V) -> V,
    TG: Fn(&V, &V) -> V,
    MG: Fn(&V, &V, &V) -> V,

    requires
        node_step(a, b, n, add, matmul, transpose, sum_rows, relu_grad, tanh_grad, mse_grad),
        0 <= n < a.size(),
        arity_ok(a.kind_at(n), a.inputs_at(n).len(), a.target_at(n)),
        forall|k: int|
            0 <= k < a.inputs_at(n).len() ==> 0 <= (#[trigger] a.inputs_at(n)[k]).0 < n,
    ensures
        forall|i: int| n <= i < a.size() ==> #[trigger] b.grad_at(i) == a.grad_at(i),
{
    assert forall|i: int| n <= i < a.size() implies #[trigger] b.grad_at(i) == a.grad_at(i) by {
        let cs = if a.grad_at(i) is Some {
            seq![a.grad_at(i)->0]
        } else {
            Seq::<V>::empty()
        };
        if a.grad_at(i) is Some {
            assert(Seq::<V>::empty().push(a.grad_at(i)->0) =~= cs);
            lemma_sums_push(add, Seq::<V>::empty(), None, a.grad_at(i)->0, a.grad_at(i));
        }
        let new = lemma_step_terms(a, b, n, i, cs, add, matmul, transpose, sum_rows, relu_grad, tanh_grad, mse_grad);
        assert(uses_at(a, i, n).len() == 0);
        assert(cs + new =~= cs);
        lemma_sums_unique_len1(add, cs, a.grad_at(i), b.grad_at(i));
    }
}

proof fn lemma_sums_unique_len1<V, F: Fn(&V, &V) -> V>(
    add: F,
    cs: Seq<V>,
    r1: Option<V>,
    r2: Option<V>,
)
    requires
        cs.len() <= 1,
        sums_to(add, cs, r1),
        sums_to(add, cs, r2),
    ensures
        r1 == r2,
{
    if cs.len() == 1 {
        let p1 = choose|p: Option<V>|
            #![trigger adds_to(add, p, cs.last(), r1)]
            sums_to(add, cs.drop_last(), p) && adds_to(add, p, cs.last(), r1);
        let p2 = choose|p: Option<V>|
            #![trigger adds_to(add, p, cs.last(), r2)]
            sums_to(add, cs.drop_last(), p) && adds_to(add, p, cs.last(), r2);
        assert(cs.drop_last().len() == 0);
    }
}

/// Once the sweep has passed the operation at `i`, its gradient no longer
/// changes.
proof fn lemma_sweep_final<V: Clone, A, MM, TR, SR, RG, TG, MG>(
    a: Tape<V>,
    ts: Seq<Tape<V>>,
    loss: Id,
    one: V,
    j: int,
    add: A,
    matmul: MM,
    transpose: TR,
    sum_rows: SR,
    relu_grad: RG,
    tanh_grad: TG,
    mse_grad: MG,
) where
    A: Fn(&V, &V) -> V,
    MM: Fn(&V, &V) -> V,
    TR: Fn(&V) -> V,
    SR: Fn(&V) -> V,
    RG: Fn(&V, &V) -> V,
    TG: Fn(&V, &V) -> V,
    MG: Fn(&V, &V, &V) -> V,

    requires
        well_recorded(a),
        no_grads(a),
        loss.0 < a.size(),
        0 <= j <= a.size(),
        ts.len() == a.size() + 1,
        accumulated(a, ts[0], loss.0 as int, one, add),
        forall|k: int|
            0 <= k < a.size() ==> #[trigger] node_step(
                ts[k],
                ts[k + 1],
                a.size() - 1 - k,
                add,
                matmul,
                transpose,
                sum_rows,
                relu_grad,
                tanh_grad,
                mse_grad,
            ),
    ensures
        forall|i: int|
            a.size() - j <= i < a.size() ==> #[trigger] ts[j].grad_at(i) == ts[a.size() as int].grad_at(i),
    decreases a.size() - j,
{
    if j < a.size() {
        lemma_sweep_final(a, ts, loss, one, j + 1, add, matmul, transpose, sum_rows, relu_grad, tanh_grad, mse_grad);
        lemma_sweep_prefix_some(a, ts, loss, one, j, add, matmul, transpose, sum_rows, relu_grad, tanh_grad, mse_grad);
        let n = a.size() - 1 - j;
        let ta = ts[j];
        assert(node_step(ts[j], ts[j + 1], a.size() - 1 - j, add, matmul, transpose, sum_rows, relu_grad, tanh_grad, mse_grad));
        assert(arity_ok(a.kind_at(n), a.inputs_at(n).len(), a.target_at(n)));
        assert forall|k: int| 0 <= k < ta.inputs_at(n).len() implies 0 <= (
        #[trigger] ta.inputs_at(n)[k]).0 < n by {
            assert(a.inputs_at(n)[k] == ta.inputs_at(n)[k]);
        }
        lemma_step_frame(ta, ts[j + 1], n, add, matmul, transpose, sum_rows, relu_grad, tanh_grad, mse_grad);
        assert forall|i: int| a.size() - j <= i < a.size() implies #[trigger] ts[j].grad_at(i)
            == ts[a.size() as int].grad_at(i) by {
            assert(ts[j + 1].grad_at(i) == ts[j].grad_at(i));
            assert(ts[j + 1].grad_at(i) == ts[a.size() as int].grad_at(i));
        }
    }
}

proof fn lemma_sweep_prefix_terms<V: Clone, A, MM, TR, SR, RG, TG, MG>(
    a: Tape<V>,
    ts: Seq<Tape<V>>,
    loss: Id,
    one: V,
    x: int,
    j: int,
    add: A,
    matmul: MM,
    transpose: TR,
    sum_rows: SR,
    relu_grad: RG,
    tanh_grad: TG,
    mse_grad: MG,
) -> (cs: Seq<V>) where
    A: Fn(&V, &V) -> V,
    MM: Fn(&V, &V) -> V,
    TR: Fn(&V) -> V,
    SR: Fn(&V) -> V,
    RG: Fn(&V, &V) -> V,
    TG: Fn(&V, &V) -> V,
    MG: Fn(&V, &V, &V) -> V,

    requires
        well_recorded(a),
        no_grads(a),
        loss.0 < a.size(),
        0 <= x < a.size(),
        0 <= j <= a.size(),
        ts.len() == a.size() + 1,
        accumulated(a, ts[0], loss.0 as int, one, add),
        forall|k: int|
            0 <= k < a.size() ==> #[trigger] node_step(
                ts[k],
                ts[k + 1],
                a.size() - 1 - k,
                add,
                matmul,
                transpose,
                sum_rows,
                relu_grad,
                tanh_grad,
                mse_grad,
            ),
    ensures
        cs.len() == (if x == loss.0 { 1int } else { 0int }) + uses_from(
            ts[a.size() as int],
            x,
            a.size() - j,
        ).len(),
        x == loss.0 ==> cs[0] == one,
        forall|u: int|
            0 <= u < uses_from(ts[a.size() as int], x, a.size() - j).len() ==> hands_on(
                ts[a.size() as int],
                (#[trigger] uses_from(ts[a.size() as int], x, a.size() - j)[u]).0,
                uses_from(ts[a.size() as int], x, a.size() - j)[u].1,
                cs[(if x == loss.0 { 1int } else { 0int }) + u],
                matmul, transpose, sum_rows, relu_grad, tanh_grad, mse_grad,
            ),
        sums_to(add, cs, ts[j].grad_at(x)),
    decreases j,
{
    let size = a.size() as int;
    let b = ts[size];
    let off: int = if x == loss.0 {
        1
    } else {
        0
    };
    lemma_sweep_prefix_some(a, ts, loss, one, size, add, matmul, transpose, sum_rows, relu_grad, tanh_grad, mse_grad);
    if j == 0 {
        assert(uses_from(b, x, size) =~= Seq::<(int, int)>::empty());
        if x == loss.0 {
            assert(a.grad_at(x) is None);
            lemma_sums_push(add, Seq::<V>::empty(), None, one, ts[0].grad_at(x));
            assert(Seq::<V>::empty().push(one) =~= seq![one]);
            seq![one]
        } else {
            assert(a.grad_at(x) is None);
            Seq::empty()
        }
    } else {
        let prev = lemma_sweep_prefix_terms(a, ts, loss, one, x, j - 1, add, matmul, transpose, sum_rows, relu_grad, tanh_grad, mse_grad);
        lemma_sweep_prefix_some(a, ts, loss, one, j - 1, add, matmul, transpose, sum_rows, relu_grad, tanh_grad, mse_grad);
        lemma_sweep_prefix_some(a, ts, loss, one, j, add, matmul, transpose, sum_rows, relu_grad, tanh_grad, mse_grad);
        lemma_sweep_final(a, ts, loss, one, j, add, matmul, transpose, sum_rows, relu_grad, tanh_grad, mse_grad);
        let n = size - j;
        let q = j - 1;
        let ta = ts[q];
        assert(node_step(ts[q], ts[q + 1], a.size() - 1 - q, add, matmul, transpose, sum_rows, relu_grad, tanh_grad, mse_grad));
        assert(arity_ok(a.kind_at(n), a.inputs_at(n).len(), a.target_at(n)));
        assert forall|k: int| 0 <= k < ta.inputs_at(n).len() implies 0 <= (
        #[trigger] ta.inputs_at(n)[k]).0 < n by {
            assert(a.inputs_at(n)[k] == ta.inputs_at(n)[k]);
        }
        lemma_step_frame(ta, ts[q + 1], n, add, matmul, transpose, sum_rows, relu_grad, tanh_grad, mse_grad);
        let new = lemma_step_terms(ta, ts[j], n, x, prev, add, matmul, transpose, sum_rows, relu_grad, tanh_grad, mse_grad);
        assert(ta.grad_at(n) == ts[j].grad_at(n));
        assert(ts[j].grad_at(n) == b.grad_at(n));
        assert(ta.inputs_at(n) == b.inputs_at(n));
        assert(ta.kind_at(n) == b.kind_at(n));
        assert(uses_at(ta, x, n) =~= uses_at(b, x, n));
        let u_prev = uses_from(b, x, n + 1);
        let u_here = uses_at(b, x, n);
        assert(uses_from(b, x, n) == u_prev + u_here);
        let cs = prev + new;
        assert forall|u: int| 0 <= u < uses_from(b, x, n).len() implies hands_on(
            b,
            (#[trigger] uses_from(b, x, n)[u]).0,
            uses_from(b, x, n)[u].1,
            cs[off + u],
            matmul, transpose, sum_rows, relu_grad, tanh_grad, mse_grad,
        ) by {
            if u < u_prev.len() {
                assert(uses_from(b, x, n)[u] == u_prev[u]);
                assert(cs[off + u] == prev[off + u]);
            } else {
                let v = u - u_prev.len();
                assert(uses_from(b, x, n)[u] == u_here[v]);
                assert(cs[off + u] == new[v]);
                assert(hands_on(ta, uses_at(ta, x, n)[v].0, uses_at(ta, x, n)[v].1, new[v], matmul, transpose, sum_rows, relu_grad, tanh_grad, mse_grad));
                let k = u_here[v].1;
                assert(u_here[v].0 == n);
                let ins = b.inputs_at(n);
                assert(0 <= ins[0].0 < n);
                if ins.len() > 1 {
                    assert(0 <= ins[1].0 < n);
                }
                assert(ta.value_at(ins[0].0 as int) == b.value_at(ins[0].0 as int));
                if ins.len() > 1 {
                    assert(ta.value_at(ins[1].0 as int) == b.value_at(ins[1].0 as int));
                }
                assert(ta.value_at(n) == b.value_at(n));
                assert(ta.target_at(n) == b.target_at(n));
            }
        }
        cs
    }
}

/// The gradient a backward sweep from `loss` leaves at `x`, on a tape that
/// held no gradient, is the sum, by `add` in sweep order, of the seed `one`
/// when `x` is the loss and of what every use of `x` hands on by the rule of
/// its operation, from the operation's own final gradient
/// (`gradient_terms`).
pub proof fn lemma_sweep_sums<V: Clone, A, MM, TR, SR, RG, TG, MG>(
    a: Tape<V>,
    b: Tape<V>,
    loss: Id,
    one: V,
    x: int,
    add: A,
    matmul: MM,
    transpose: TR,
    sum_rows: SR,
    relu_grad: RG,
    tanh_grad: TG,
    mse_grad: MG,
) where
    A: Fn(&V, &V) -> V,
    MM: Fn(&V, &V) -> V,
    TR: Fn(&V) -> V,
    SR: Fn(&V) -> V,
    RG: Fn(&V, &V) -> V,
    TG: Fn(&V, &V) -> V,
    MG: Fn(&V, &V, &V) -> V,

    requires
        well_recorded(a),
        no_grads(a),
        loss.0 < a.size(),
        0 <= x < a.size(),
        swept(a, b, loss, one, add, matmul, transpose, sum_rows, relu_grad, tanh_grad, mse_grad),
    ensures
        exists|cs: Seq<V>|
            gradient_terms(b, x, loss, one, cs, matmul, transpose, sum_rows, relu_grad, tanh_grad, mse_grad) && sums_to(
                add,
                cs,
                b.grad_at(x),
            ),
{
    let ts = choose|ts: Seq<Tape<V>>|
        {
            &&& ts.len() == a.size() + 1
            &&& accumulated(a, ts[0], loss.0 as int, one, add)
            &&& forall|k: int|
                0 <= k < a.size() ==> #[trigger] node_step(
                    ts[k],
                    ts[k + 1],
                    a.size() - 1 - k,
                    add,
                    matmul,
                    transpose,
                    sum_rows,
                    relu_grad,
                    tanh_grad,
                    mse_grad,
                )
            &&& ts[a.size() as int] == b
        };
    let cs = lemma_sweep_prefix_terms(a, ts, loss, one, x, a.size() as int, add, matmul, transpose, sum_rows, relu_grad, tanh_grad, mse_grad);
    assert(gradient_terms(b, x, loss, one, cs, matmul, transpose, sum_rows, relu_grad, tanh_grad, mse_grad));
}

proof fn lemma_swept_same_record<V: Clone, A, MM, TR, SR, RG, TG, MG>(
    a: Tape<V>,
    b: Tape<V>,
    loss: Id,
    one: V,
    add: A,
    matmul: MM,
    transpose: TR,
    sum_rows: SR,
    relu_grad: RG,
    tanh_grad: TG,
    mse_grad: MG,
) where
    A: Fn(&V, &V) -> V,
    MM: Fn(&V, &V) -> V,
    TR: Fn(&V) -> V,
    SR: Fn(&V) -> V,
    RG: Fn(&V, &V) -> V,
    TG: Fn(&V, &V) -> V,
    MG: Fn(&V, &V, &V) -> V,

    requires
        well_recorded(a),
        no_grads(a),
        loss.0 < a.size(),
        swept(a, b, loss, one, add, matmul, transpose, sum_rows, relu_grad, tanh_grad, mse_grad),
    ensures
        same_record(a, b),
{
    let ts = choose|ts: Seq<Tape<V>>|
        {
            &&& ts.len() == a.size() + 1
            &&& accumulated(a, ts[0], loss.0 as int, one, add)
            &&& forall|k: int|
                0 <= k < a.size() ==> #[trigger] node_step(
                    ts[k],
                    ts[k + 1],
                    a.size() - 1 - k,
                    add,
                    matmul,
                    transpose,
                    sum_rows,
                    relu_grad,
                    tanh_grad,
                    mse_grad,
                )
            &&& ts[a.size() as int] == b
        };
    lemma_sweep_prefix_some(a, ts, loss, one, a.size() as int, add, matmul, transpose, sum_rows, relu_grad, tanh_grad, mse_grad);
}

/// `x` is read by exactly one input position of one operation: position `k`
/// of the operation at `n`.
pub open spec fn only_use<V>(t: Tape<V>, x: int, n: int, k: int) -> bool {
    &&& 0 <= n < t.size()
    &&& 0 <= k < t.inputs_at(n).len()
    &&& t.inputs_at(n)[k].0 == x
    &&& forall|m: int, q: int|
        0 <= m < t.size() && 0 <= q < t.inputs_at(m).len() && (#[trigger] t.inputs_at(m)[q]).0
            == x ==> m == n && q == k
}

proof fn lemma_uses_single<V>(t: Tape<V>, x: int, n: int, k: int, lo: int)
    requires
        only_use(t, x, n, k),
        t.grad_at(n) is Some,
        t.kind_at(n) != Kind::Input,
        t.inputs_at(n).len() <= 2,
        0 <= lo <= t.size(),
    ensures
        uses_from(t, x, lo) == (if lo <= n {
            seq![(n, k)]
        } else {
            Seq::<(int, int)>::empty()
        }),
    decreases t.size() - lo,
{
    if lo < t.size() {
        lemma_uses_single(t, x, n, k, lo + 1);
        let ins = t.inputs_at(lo);
        if lo == n {
            if k == 0 && ins.len() > 1 {
                assert(ins[1].0 != x);
            }
            if k == 1 {
                assert(ins[0].0 != x);
            }
            assert(uses_at(t, x, lo) =~= seq![(n, k)]);
        } else {
            if ins.len() > 0 {
                assert(ins[0].0 != x);
            }
            if ins.len() > 1 {
                assert(ins[1].0 != x);
            }
            assert(uses_at(t, x, lo) =~= Seq::<(int, int)>::empty());
        }
        assert(uses_from(t, x, lo) == uses_from(t, x, lo + 1) + uses_at(t, x, lo));
        assert(uses_from(t, x, lo) =~= (if lo <= n {
            seq![(n, k)]
        } else {
            Seq::<(int, int)>::empty()
        }));
    }
}

/// After a backward sweep over a tape that held no gradient, a value that is
/// not the loss and is read by a single operation, one that got a gradient
/// `g`, receives exactly what that operation's rule hands on: through a
/// product `x * w`, `g * transpose(w)` for `x` and `transpose(x) * g` for
/// `w`; through a bias `x + b`, a copy of `g` for `x` and the row sums of `g`
/// for `b`; a copy of `g` for either side of a sum; `relu_grad(x, g)` for
/// the input of a rectifier; `tanh_grad(output, g)` for the input of a tanh;
/// and `mse_grad(prediction, target, g)` for the prediction of a loss.
pub proof fn lemma_single_use_gradient<V: Clone, A, MM, TR, SR, RG, TG, MG>(
    a: Tape<V>,
    b: Tape<V>,
    loss: Id,
    one: V,
    x: int,
    n: int,
    k: int,
    add: A,
    matmul: MM,
    transpose: TR,
    sum_rows: SR,
    relu_grad: RG,
    tanh_grad: TG,
    mse_grad: MG,
) where
    A: Fn(&V, &V) -> V,
    MM: Fn(&V, &V) -> V,
    TR: Fn(&V) -> V,
    SR: Fn(&V) -> V,
    RG: Fn(&V, &V) -> V,
    TG: Fn(&V, &V) -> V,
    MG: Fn(&V, &V, &V) -> V,

    requires
        well_recorded(a),
        no_grads(a),
        loss.0 < a.size(),
        swept(a, b, loss, one, add, matmul, transpose, sum_rows, relu_grad, tanh_grad, mse_grad),
        0 <= x < a.size(),
        x != loss.0,
        only_use(a, x, n, k),
        b.grad_at(n) is Some,
    ensures
        b.grad_at(x) is Some,
        ({
            let g = b.grad_at(n)->0;
            let c = b.grad_at(x)->0;
            let ins = a.inputs_at(n);
            &&& a.kind_at(n) == Kind::MatMul && k == 0 ==> exists|wt: V|
                call_ensures(transpose, (&a.value_at(ins[1].0 as int),), wt) && call_ensures(
                    matmul,
                    (&g, &wt),
                    c,
                )
            &&& a.kind_at(n) == Kind::MatMul && k == 1 ==> exists|xt: V|
                call_ensures(transpose, (&a.value_at(ins[0].0 as int),), xt) && call_ensures(
                    matmul,
                    (&xt, &g),
                    c,
                )
            &&& a.kind_at(n) == Kind::AddBias && k == 0 ==> cloned(g, c)
            &&& a.kind_at(n) == Kind::AddBias && k == 1 ==> call_ensures(sum_rows, (&g,), c)
            &&& a.kind_at(n) == Kind::Add ==> cloned(g, c)
            &&& a.kind_at(n) == Kind::Relu ==> call_ensures(relu_grad, (&a.value_at(x), &g), c)
            &&& a.kind_at(n) == Kind::Tanh ==> call_ensures(tanh_grad, (&a.value_at(n), &g), c)
            &&& a.kind_at(n) == Kind::Mse ==> call_ensures(
                mse_grad,
                (&a.value_at(x), &a.target_at(n)->0, &g),
                c,
            )
        }),
{
    lemma_swept_same_record(a, b, loss, one, add, matmul, transpose, sum_rows, relu_grad, tanh_grad, mse_grad);
    lemma_sweep_sums(a, b, loss, one, x, add, matmul, transpose, sum_rows, relu_grad, tanh_grad, mse_grad);
    let cs = choose|cs: Seq<V>|
        gradient_terms(b, x, loss, one, cs, matmul, transpose, sum_rows, relu_grad, tanh_grad, mse_grad)
            && sums_to(add, cs, b.grad_at(x));
    assert(arity_ok(a.kind_at(n), a.inputs_at(n).len(), a.target_at(n)));
    assert(only_use(b, x, n, k)) by {
        assert forall|m: int, q: int|
            0 <= m < b.size() && 0 <= q < b.inputs_at(m).len() && (#[trigger] b.inputs_at(
                m,
            )[q]).0 == x implies m == n && q == k by {
            assert(a.inputs_at(m)[q] == b.inputs_at(m)[q]);
        }
    }
    lemma_uses_single(b, x, n, k, 0);
    assert(uses_from(b, x, 0)[0] == (n, k));
    assert(cs.len() == 1);
    let p = choose|p: Option<V>|
        #![trigger adds_to(add, p, cs.last(), b.grad_at(x))]
        sums_to(add, cs.drop_last(), p) && adds_to(add, p, cs.last(), b.grad_at(x));
    assert(cs.drop_last().len() == 0);
    assert(b.grad_at(x) == Some(cs[0]));
    let ins = a.inputs_at(n);
    assert(0 <= ins[0].0 < n);
    assert(a.value_at(ins[0].0 as int) == b.value_at(ins[0].0 as int));
    if ins.len() > 1 {
        assert(0 <= ins[1].0 < n);
        assert(a.value_at(ins[1].0 as int) == b.value_at(ins[1].0 as int));
    }
    assert(a.value_at(n) == b.value_at(n));
    assert(a.value_at(x) == b.value_at(x));
}

impl<V: Clone> Tape<V> {
    /// Records the product of the values at `a` and `b`, computed by `f`.
    pub fn matmul<F: Fn(&V, &V) -> V>(&mut self, a: Id, b: Id, f: F) -> (id: Id)
        requires
            a.0 < old(self).size(),
            b.0 < old(self).size(),
            call_requires(f, (&old(self).value_at(a.0 as int), &old(self).value_at(b.0 as int))),
        ensures
            appended(*old(self), *final(self), id, Kind::MatMul, seq![a, b], None),
            call_ensures(
                f,
                (&old(self).value_at(a.0 as int), &old(self).value_at(b.0 as int)),
                final(self).value_at(id.0 as int),
            ),
    {
        let v = f(self.value(a), self.value(b));
        self.push(Kind::MatMul, pair(a, b), None, v)
    }

    /// Records the rows of the value at `x` with the bias at `b` added, as
    /// computed by `f`.
    pub fn add_bias<F: Fn(&V, &V) -> V>(&mut self, x: Id, b: Id, f: F) -> (id: Id)
        requires
            x.0 < old(self).size(),
            b.0 < old(self).size(),
            call_requires(f, (&old(self).value_at(x.0 as int), &old(self).value_at(b.0 as int))),
        ensures
            appended(*old(self), *final(self), id, Kind::AddBias, seq![x, b], None),
            call_ensures(
                f,
                (&old(self).value_at(x.0 as int), &old(self).value_at(b.0 as int)),
                final(self).value_at(id.0 as int),
            ),
    {
        let v = f(self.value(x), self.value(b));
        self.push(Kind::AddBias, pair(x, b), None, v)
    }

    /// Records the sum of the values at `a` and `b`, computed by `f`.
    pub fn add<F: Fn(&V, &V) -> V>(&mut self, a: Id, b: Id, f: F) -> (id: Id)
        requires
            a.0 < old(self).size(),
            b.0 < old(self).size(),
            call_requires(f, (&old(self).value_at(a.0 as int), &old(self).value_at(b.0 as int))),
        ensures
            appended(*old(self), *final(self), id, Kind::Add, seq![a, b], None),
            call_ensures(
                f,
                (&old(self).value_at(a.0 as int), &old(self).value_at(b.0 as int)),
                final(self).value_at(id.0 as int),
            ),
    {
        let v = f(self.value(a), self.value(b));
        self.push(Kind::Add, pair(a, b), None, v)
    }

    /// Records the rectified value at `x`, computed by `f`.
    pub fn relu<F: Fn(&V) -> V>(&mut self, x: Id, f: F) -> (id: Id)
        requires
            x.0 < old(self).size(),
            call_requires(f, (&old(self).value_at(x.0 as int),)),
        ensures
            appended(*old(self), *final(self), id, Kind::Relu, seq![x], None),
            call_ensures(f, (&old(self).value_at(x.0 as int),), final(self).value_at(id.0 as int)),
    {
        let v = f(self.value(x));
        self.push(Kind::Relu, single(x), None, v)
    }

    /// Records the hyperbolic tangent of the value at `x`, computed by `f`.
    pub fn tanh<F: Fn(&V) -> V>(&mut self, x: Id, f: F) -> (id: Id)
        requires
            x.0 < old(self).size(),
            call_requires(f, (&old(self).value_at(x.0 as int),)),
        ensures
            appended(*old(self), *final(self), id, Kind::Tanh, seq![x], None),
            call_ensures(f, (&old(self).value_at(x.0 as int),), final(self).value_at(id.0 as int)),
    {
        let v = f(self.value(x));
        self.push(Kind::Tanh, single(x), None, v)
    }

    /// Records the loss of the prediction at `pred` against `target`, computed
    /// by `f`; the node keeps a copy of the target.
    pub fn mse<F: Fn(&V, &V) -> V>(&mut self, pred: Id, target: &V, f: F) -> (id: Id)
        requires
            pred.0 < old(self).size(),
            call_requires(f, (&old(self).value_at(pred.0 as int), target)),
        ensures
            final(self).target_at(id.0 as int) matches Some(t) && cloned(*target, t),
            appended(
                *old(self),
                *final(self),
                id,
                Kind::Mse,
                seq![pred],
                final(self).target_at(id.0 as int),
            ),
            call_ensures(
                f,
                (&old(self).value_at(pred.0 as int), target),
                final(self).value_at(id.0 as int),
            ),
    {
        let v = f(self.value(pred), target);
        let t = target.clone();
        self.push(Kind::Mse, single(pred), Some(t), v)
    }

    /// The sweep step for the operation at `i`.
    fn propagate<A, MM, TR, SR, RG, TG, MG>(
        &mut self,
        i: usize,
        add: &A,
        matmul: &MM,
        transpose: &TR,
        sum_rows: &SR,
        relu_grad: &RG,
        tanh_grad: &TG,
        mse_grad: &MG,
    ) where
        A: Fn(&V, &V) -> V,
        MM: Fn(&V, &V) -> V,
        TR: Fn(&V) -> V,
        SR: Fn(&V) -> V,
        RG: Fn(&V, &V) -> V,
        TG: Fn(&V, &V) -> V,
        MG: Fn(&V, &V, &V) -> V,

        requires
            i < old(self).size(),
            forall|x: &V, y: &V| call_requires(*add, (x, y)),
            forall|x: &V, y: &V| call_requires(*matmul, (x, y)),
            forall|x: &V| call_requires(*transpose, (x,)),
            forall|x: &V| call_requires(*sum_rows, (x,)),
            forall|x: &V, y: &V| call_requires(*relu_grad, (x, y)),
            forall|x: &V, y: &V| call_requires(*tanh_grad, (x, y)),
            forall|x: &V, y: &V, z: &V| call_requires(*mse_grad, (x, y, z)),
        ensures
            node_step(
                *old(self),
                *final(self),
                i as int,
                *add,
                *matmul,
                *transpose,
                *sum_rows,
                *relu_grad,
                *tanh_grad,
                *mse_grad,
            ),
    {
        let id = Id(i);
        let kind = self.kind(id);
        if self.grad(id).is_none() {
            return ;
        }
        if let Kind::Input = kind {
            return ;
        }
        let ins = self.inputs(id);
        let ghost a = *self;
        let ghost g = self.grad_at(i as int)->0;
        match kind {
            Kind::Input => {},
            Kind::MatMul => {
                let x = ins[0];
                let w = ins[1];
                let g_ref = self.grad(id).unwrap();
                let wt = transpose(self.value(w));
                let gx = matmul(g_ref, &wt);
                let xt = transpose(self.value(x));
                let gw = matmul(&xt, g_ref);
                self.add_grad(x, gx, add);
                let ghost m = *self;
                self.add_grad(w, gw, add);
                assert(accumulated(a, m, x.0 as int, gx, *add));
            },
            Kind::AddBias => {
                let x = ins[0];
                let b = ins[1];
                let g_ref = self.grad(id).unwrap();
                let gx = g_ref.clone();
                let gb = sum_rows(g_ref);
                assert(cloned(g, gx));
                assert(call_ensures(*sum_rows, (&g,), gb));
                self.add_grad(x, gx, add);
                let ghost m = *self;
                self.add_grad(b, gb, add);
                assert(accumulated(a, m, x.0 as int, gx, *add));
                assert(accumulated(m, *self, b.0 as int, gb, *add));
            },
            Kind::Add => {
                let x = ins[0];
                let y = ins[1];
                let g_ref = self.grad(id).unwrap();
                let ga = g_ref.clone();
                let gb = g_ref.clone();
                assert(cloned(g, ga));
                assert(cloned(g, gb));
                self.add_grad(x, ga, add);
                let ghost m = *self;
                self.add_grad(y, gb, add);
                assert(accumulated(a, m, x.0 as int, ga, *add));
                assert(accumulated(m, *self, y.0 as int, gb, *add));
            },
            Kind::Relu => {
                let x = ins[0];
                let g_ref = self.grad(id).unwrap();
                let gx = relu_grad(self.value(x), g_ref);
                self.add_grad(x, gx, add);
            },
            Kind::Tanh => {
                let x = ins[0];
                let g_ref = self.grad(id).unwrap();
                let gx = tanh_grad(self.value(id), g_ref);
                self.add_grad(x, gx, add);
            },
            Kind::Mse => {
                let p = ins[0];
                let g_ref = self.grad(id).unwrap();
                let gx = match self.target(id) {
                    Some(t) => mse_grad(self.value(p), t, g_ref),
                    None => {
                        return ;
                    },
                };
                self.add_grad(p, gx, add);
            },
        }
    }

    /// Reverse-mode differentiation from `loss`: seeds its gradient with
    /// `one`, then walks the operations from the last recorded down to the
    /// first and hands each gradient on to the inputs by the rule of its kind
    /// (see `node_step`), adding with `add`.
    pub fn backward<A, MM, TR, SR, RG, TG, MG>(
        &mut self,
        loss: Id,
        one: V,
        add: A,
        matmul: MM,
        transpose: TR,
        sum_rows: SR,
        relu_grad: RG,
        tanh_grad: TG,
        mse_grad: MG,
    ) where
        A: Fn(&V, &V) -> V,
        MM: Fn(&V, &V) -> V,
        TR: Fn(&V) -> V,
        SR: Fn(&V) -> V,
        RG: Fn(&V, &V) -> V,
        TG: Fn(&V, &V) -> V,
        MG: Fn(&V, &V, &V) -> V,

        requires
            loss.0 < old(self).size(),
            forall|x: &V, y: &V| call_requires(add, (x, y)),
            forall|x: &V, y: &V| call_requires(matmul, (x, y)),
            forall|x: &V| call_requires(transpose, (x,)),
            forall|x: &V| call_requires(sum_rows, (x,)),
            forall|x: &V, y: &V| call_requires(relu_grad, (x, y)),
            forall|x: &V, y: &V| call_requires(tanh_grad, (x, y)),
            forall|x: &V, y: &V, z: &V| call_requires(mse_grad, (x, y, z)),
        ensures
            same_record(*old(self), *final(self)),
            swept(
                *old(self),
                *final(self),
                loss,
                one,
                add,
                matmul,
                transpose,
                sum_rows,
                relu_grad,
                tanh_grad,
                mse_grad,
            ),
    {
        let ghost start = *self;
        self.add_grad(loss, one, &add);
        let n = self.len();
        let ghost mut ts: Seq<Tape<V>> = seq![*self];
        let mut i: usize = n;
        while i > 0
            invariant
                n == start.size(),
                i <= n,
                forall|x: &V, y: &V| call_requires(add, (x, y)),
                forall|x: &V, y: &V| call_requires(matmul, (x, y)),
                forall|x: &V| call_requires(transpose, (x,)),
                forall|x: &V| call_requires(sum_rows, (x,)),
                forall|x: &V, y: &V| call_requires(relu_grad, (x, y)),
                forall|x: &V, y: &V| call_requires(tanh_grad, (x, y)),
                forall|x: &V, y: &V, z: &V| call_requires(mse_grad, (x, y, z)),
                ts.len() == n - i + 1,
                accumulated(start, ts[0], loss.0 as int, one, add),
                forall|k: int|
                    0 <= k < n - i ==> #[trigger] node_step(
                        ts[k],
                        ts[k + 1],
                        n - 1 - k,
                        add,
                        matmul,
                        transpose,
                        sum_rows,
                        relu_grad,
                        tanh_grad,
                        mse_grad,
                    ),
                ts.last() == *self,
                same_record(start, *self),
            decreases i,
        {
            i = i - 1;
            let ghost before = *self;
            self.propagate(
                i,
                &add,
                &matmul,
                &transpose,
                &sum_rows,
                &relu_grad,
                &tanh_grad,
                &mse_grad,
            );
            proof {
                lemma_step_keeps_record(
                    before,
                    *self,
                    i as int,
                    add,
                    matmul,
                    transpose,
                    sum_rows,
                    relu_grad,
                    tanh_grad,
                    mse_grad,
                );
                ts = ts.push(*self);
            }
        }
        assert(ts[n as int] == *self);
    }
}

proof fn lemma_step_keeps_record<V: Clone, A, MM, TR, SR, RG, TG, MG>(
    a: Tape<V>,
    b: Tape<V>,
    i: int,
    add: A,
    matmul: MM,
    transpose: TR,
    sum_rows: SR,
    relu_grad: RG,
    tanh_grad: TG,
    mse_grad: MG,
) where
    A: Fn(&V, &V) -> V,
    MM: Fn(&V, &V) -> V,
    TR: Fn(&V) -> V,
    SR: Fn(&V) -> V,
    RG: Fn(&V, &V) -> V,
    TG: Fn(&V, &V) -> V,
    MG: Fn(&V, &V, &V) -> V,

    requires
        node_step(a, b, i, add, matmul, transpose, sum_rows, relu_grad, tanh_grad, mse_grad),
    ensures
        same_record(a, b),
{
    if a.grad_at(i) is Some && a.kind_at(i) != Kind::Input {
        match a.kind_at(i) {
            Kind::MatMul => {
                let (m, wt, gx, xt, gw) = choose|m: Tape<V>, wt: V, gx: V, xt: V, gw: V|
                    {
                        &&& call_ensures(transpose, (&a.value_at(a.inputs_at(i)[1].0 as int),), wt)
                        &&& call_ensures(matmul, (&a.grad_at(i)->0, &wt), gx)
                        &&& call_ensures(transpose, (&a.value_at(a.inputs_at(i)[0].0 as int),), xt)
                        &&& call_ensures(matmul, (&xt, &a.grad_at(i)->0), gw)
                        &&& accumulated(a, m, a.inputs_at(i)[0].0 as int, gx, add)
                        &&& accumulated(m, b, a.inputs_at(i)[1].0 as int, gw, add)
                    };
            },
            Kind::AddBias => {
                let (m, gx, gb) = choose|m: Tape<V>, gx: V, gb: V|
                    {
                        &&& cloned(a.grad_at(i)->0, gx)
                        &&& call_ensures(sum_rows, (&a.grad_at(i)->0,), gb)
                        &&& accumulated(a, m, a.inputs_at(i)[0].0 as int, gx, add)
                        &&& accumulated(m, b, a.inputs_at(i)[1].0 as int, gb, add)
                    };
            },
            Kind::Add => {
                let (m, ga, gb) = choose|m: Tape<V>, ga: V, gb: V|
                    {
                        &&& cloned(a.grad_at(i)->0, ga)
                        &&& cloned(a.grad_at(i)->0, gb)
                        &&& accumulated(a, m, a.inputs_at(i)[0].0 as int, ga, add)
                        &&& accumulated(m, b, a.inputs_at(i)[1].0 as int, gb, add)
                    };
            },
            _ => {},
        }
    }
}

fn pair(a: Id, b: Id) -> (v: Vec<Id>)
    ensures
        v@ == seq![a, b],
{
    let mut v = Vec::new();
    v.push(a);
    v.push(b);
    assert(v@ =~= seq![a, b]);
    v
}

fn single(a: Id) -> (v: Vec<Id>)
    ensures
        v@ == seq![a],
{
    let mut v = Vec::new();
    v.push(a);
    assert(v@ =~= seq![a]);
    v
}

impl<V> Default for Tape<V> {
    fn default() -> (t: Tape<V>)
        ensures
            t.size() == 0,
    {
        Tape::new()
    }
}

} // verus!
