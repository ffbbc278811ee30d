use neonate::autograd::{Id, Tape};
use neonate::rand::Rng;
use neonate::tensor::Array;

type A = Array<f32>;

fn uniform(rng: &mut Rng, lo: f32, hi: f32) -> f32 {
    let u = ((rng.next_u32() >> 8) as f32) / ((1u32 << 24) as f32);
    lo + (hi - lo) * u
}

/// Gaussian samples by the polar method, two per round.
fn gaussians(rng: &mut Rng, n: usize) -> Vec<f32> {
    let mut out = Vec::with_capacity(n);
    while out.len() < n {
        let (mut u, mut v, mut s) = (0.0f32, 0.0f32, 0.0f32);
        while s >= 1.0 || s == 0.0 {
            u = uniform(rng, -1.0, 1.0);
            v = uniform(rng, -1.0, 1.0);
            s = u * u + v * v;
        }
        let m = (-2.0 * s.ln() / s).sqrt();
        out.push(u * m);
        if out.len() < n {
            out.push(v * m);
        }
    }
    out
}

fn randn(rng: &mut Rng, shape: &[usize], scale: f32) -> A {
    let n: usize = shape.iter().product();
    let data = gaussians(rng, n).into_iter().map(|x| x * scale).collect();
    Array::from_vec(shape, data)
}

fn matmul(a: &A, b: &A) -> A {
    a.matmul_with(b, 0.0, |x: f32, y: f32| x * y, |x: f32, y: f32| x + y)
}

fn add_bias(a: &A, b: &A) -> A {
    a.broadcast_rows(b, |x: f32, y: f32| x + y)
}

fn add(a: &A, b: &A) -> A {
    a.zip_map(b, |x: f32, y: f32| x + y)
}

fn mse_value(p: &A, t: &A) -> A {
    let d: f32 = p.data.iter().zip(t.data.iter()).map(|(a, b)| (a - b) * (a - b)).sum::<f32>()
        / p.data.len() as f32;
    Array::from_vec(&[1], vec![d])
}

fn relu_grad(x: &A, g: &A) -> A {
    x.zip_map(g, |v: f32, d: f32| if v > 0.0 { d } else { 0.0 })
}

fn tanh_grad(o: &A, g: &A) -> A {
    o.zip_map(g, |v: f32, d: f32| d * (1.0 - v * v))
}

fn mse_grad(p: &A, t: &A, g: &A) -> A {
    let n = p.data.len() as f32;
    let g0 = g.data[0];
    p.zip_map(t, |a: f32, b: f32| 2.0 * (a - b) / n * g0)
}

fn backward(tp: &mut Tape<A>, loss: Id) {
    tp.backward(
        loss,
        Array::from_vec(&[1], vec![1.0]),
        add,
        matmul,
        |a: &A| a.transpose(),
        |a: &A| a.sum_rows_with(0.0, |x: f32, y: f32| x + y),
        relu_grad,
        tanh_grad,
        mse_grad,
    );
}

fn numeric_grad(f: impl Fn(&A) -> f32, w: &A, e: f32) -> A {
    let mut g = vec![0.0; w.data.len()];
    for i in 0..w.data.len() {
        let mut p = w.data.clone();
        let mut m = w.data.clone();
        p[i] += e;
        m[i] -= e;
        let fp = f(&Array::from_vec(&w.shape, p));
        let fm = f(&Array::from_vec(&w.shape, m));
        g[i] = (fp - fm) / (2.0 * e);
    }
    Array::from_vec(&w.shape, g)
}

#[test]
fn gradcheck_mlp() {
    let mut rng = Rng::new(3);
    let x = randn(&mut rng, &[4, 5], 1.0);
    let w1 = randn(&mut rng, &[5, 6], 0.5);
    let b1 = randn(&mut rng, &[6], 0.5);
    let w2 = randn(&mut rng, &[6, 2], 0.5);
    let t = randn(&mut rng, &[4, 2], 1.0);

    let run = |w1v: &A| {
        let mut tp = Tape::new();
        let xi = tp.input(x.clone());
        let w = tp.param(w1v.clone());
        let b = tp.param(b1.clone());
        let w2i = tp.param(w2.clone());
        let m = tp.matmul(xi, w, matmul);
        let ab = tp.add_bias(m, b, add_bias);
        let h = tp.relu(ab, |v: &A| v.map(|e: f32| e.max(0.0)));
        let o = tp.matmul(h, w2i, matmul);
        let l = tp.mse(o, &t, mse_value);
        tp.value(l).data[0]
    };
    let num = numeric_grad(run, &w1, 1e-3);

    let mut tp = Tape::new();
    let xi = tp.input(x);
    let w = tp.param(w1.clone());
    let b = tp.param(b1);
    let w2i = tp.param(w2);
    let m = tp.matmul(xi, w, matmul);
    let ab = tp.add_bias(m, b, add_bias);
    let h = tp.relu(ab, |v: &A| v.map(|e: f32| e.max(0.0)));
    let o = tp.matmul(h, w2i, matmul);
    let l = tp.mse(o, &t, mse_value);
    backward(&mut tp, l);
    let ana = tp.grad(w).unwrap();
    for (a, n) in ana.data.iter().zip(num.data.iter()) {
        assert!((a - n).abs() < 1e-2, "analytic {a} vs numeric {n}");
    }
}

#[test]
fn gradcheck_tanh_add() {
    let mut rng = Rng::new(11);
    let a = randn(&mut rng, &[3, 4], 1.0);
    let b = randn(&mut rng, &[3, 4], 1.0);
    let run = |av: &A| {
        let mut tp = Tape::new();
        let x = tp.param(av.clone());
        let y = tp.param(b.clone());
        let ad = tp.add(x, y, add);
        let o = tp.tanh(ad, |v: &A| v.map(|e: f32| e.tanh()));
        let zero = Array::from_vec(&[3, 4], vec![0.0; 12]);
        let l = tp.mse(o, &zero, mse_value);
        tp.value(l).data[0]
    };
    let num = numeric_grad(run, &a, 1e-3);
    let mut tp = Tape::new();
    let x = tp.param(a.clone());
    let y = tp.param(b);
    let ad = tp.add(x, y, add);
    let o = tp.tanh(ad, |v: &A| v.map(|e: f32| e.tanh()));
    let zero = Array::from_vec(&[3, 4], vec![0.0; 12]);
    let l = tp.mse(o, &zero, mse_value);
    backward(&mut tp, l);
    let ana = tp.grad(x).unwrap();
    for (x_, n) in ana.data.iter().zip(num.data.iter()) {
        assert!((x_ - n).abs() < 1e-2, "analytic {x_} vs numeric {n}");
    }
}

#[test]
fn backward_on_integers_follows_the_rules() {
    // loss = mse(x + y) with integer stand-ins: every rule is a plain sum or copy.
    let mut tp: Tape<i64> = Tape::new();
    let x = tp.param(3);
    let y = tp.param(4);
    let s = tp.add(x, y, |a: &i64, b: &i64| a + b);
    let l = tp.mse(s, &10, |p: &i64, t: &i64| (p - t) * (p - t));
    assert_eq!(*tp.value(l), 9);
    tp.backward(
        l,
        1,
        |a: &i64, b: &i64| a + b,
        |a: &i64, b: &i64| a * b,
        |a: &i64| *a,
        |a: &i64| *a,
        |_x: &i64, g: &i64| *g,
        |_o: &i64, g: &i64| *g,
        |p: &i64, t: &i64, g: &i64| 2 * (p - t) * g,
    );
    assert_eq!(tp.grad(l), Some(&1));
    assert_eq!(tp.grad(s), Some(&-6));
    assert_eq!(tp.grad(x), Some(&-6));
    assert_eq!(tp.grad(y), Some(&-6));
}

#[test]
fn backward_skips_nodes_without_gradient() {
    let mut tp: Tape<i64> = Tape::new();
    let a = tp.param(2);
    let b = tp.param(5);
    let p = tp.matmul(a, b, |x: &i64, y: &i64| x * y);
    let _unused = tp.relu(a, |x: &i64| *x.max(&0));
    tp.backward(
        p,
        1,
        |x: &i64, y: &i64| x + y,
        |x: &i64, y: &i64| x * y,
        |x: &i64| *x,
        |x: &i64| *x,
        |_x: &i64, g: &i64| *g,
        |_o: &i64, g: &i64| *g,
        |_p: &i64, _t: &i64, g: &i64| *g,
    );
    // d(a*b)/da = b, d(a*b)/db = a; the unused activation hands nothing on.
    assert_eq!(tp.grad(a), Some(&5));
    assert_eq!(tp.grad(b), Some(&2));
    assert_eq!(tp.grad(Id(3)), None);
}

#[test]
fn backward_sums_the_uses_of_a_value() {
    // y = x + x, z = y * w: x is used twice by the sum, so its gradient is the
    // sum of the two copies of the sum's gradient.
    let mut tp: Tape<i64> = Tape::new();
    let x = tp.param(3);
    let w = tp.param(4);
    let y = tp.add(x, x, |a: &i64, b: &i64| a + b);
    let z = tp.matmul(y, w, |a: &i64, b: &i64| a * b);
    let u = tp.param(9);
    tp.backward(
        z,
        1,
        |a: &i64, b: &i64| a + b,
        |a: &i64, b: &i64| a * b,
        |a: &i64| *a,
        |a: &i64| *a,
        |_x: &i64, g: &i64| *g,
        |_o: &i64, g: &i64| *g,
        |_p: &i64, _t: &i64, g: &i64| *g,
    );
    assert_eq!(tp.grad(z), Some(&1));
    assert_eq!(tp.grad(y), Some(&4));
    assert_eq!(tp.grad(w), Some(&6));
    assert_eq!(tp.grad(x), Some(&8));
    // u was recorded after the loss and does not feed it.
    assert_eq!(tp.grad(u), None);
}

#[test]
fn zero_grad_then_backward_matches_a_fresh_sweep() {
    let build = |tp: &mut Tape<i64>| {
        let a = tp.param(2);
        let b = tp.param(5);
        let p = tp.matmul(a, b, |x: &i64, y: &i64| x * y);
        (a, b, p)
    };
    let sweep = |tp: &mut Tape<i64>, l: Id| {
        tp.backward(
            l,
            1,
            |x: &i64, y: &i64| x + y,
            |x: &i64, y: &i64| x * y,
            |x: &i64| *x,
            |x: &i64| *x,
            |_x: &i64, g: &i64| *g,
            |_o: &i64, g: &i64| *g,
            |_p: &i64, _t: &i64, g: &i64| *g,
        )
    };
    let mut used: Tape<i64> = Tape::new();
    let (a, b, p) = build(&mut used);
    sweep(&mut used, p);
    sweep(&mut used, p);
    assert_eq!(used.grad(a), Some(&15));
    used.zero_grad();
    sweep(&mut used, p);
    let mut fresh: Tape<i64> = Tape::new();
    let (fa, fb, fp) = build(&mut fresh);
    sweep(&mut fresh, fp);
    assert_eq!(used.grad(a), fresh.grad(fa));
    assert_eq!(used.grad(b), fresh.grad(fb));
    assert_eq!(used.grad(p), fresh.grad(fp));
}
