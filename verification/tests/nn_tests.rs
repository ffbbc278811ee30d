use neonate::autograd::Tape;
use neonate::nn::{infer_sizes, layer_shapes, Mlp};
use neonate::rand::Rng;
use neonate::tensor::Array;
use neonate::weights::{decode_params, encode_params, LoadError};

fn random_mlp(rng: &mut Rng, sizes: &[usize]) -> Mlp<u32> {
    let params = layer_shapes(sizes)
        .iter()
        .map(|shape| {
            let n: usize = shape.iter().product();
            Array::from_vec(shape, (0..n).map(|_| rng.next_u32()).collect())
        })
        .collect();
    Mlp { sizes: sizes.to_vec(), params }
}

#[test]
fn save_load_roundtrip() {
    let mut rng = Rng::new(9);
    let net = random_mlp(&mut rng, &[4, 8, 2]);
    let bytes = net.save_bytes();
    let back = Mlp::load_bytes(&bytes).unwrap();
    assert_eq!(back.sizes, net.sizes);
    assert_eq!(back.params, net.params);
}

#[test]
fn copy_from_syncs() {
    let mut rng = Rng::new(2);
    let a = random_mlp(&mut rng, &[2, 4, 1]);
    let mut b = a.zeros_like(0);
    assert!(b.params.iter().all(|p| p.data.iter().all(|&x| x == 0)));
    b.copy_from(&a);
    assert_eq!(a.params, b.params);
}

#[test]
fn layer_shapes_alternate_weights_and_biases() {
    let shapes = layer_shapes(&[3, 5, 2]);
    assert_eq!(shapes, vec![vec![3, 5], vec![5], vec![5, 2], vec![2]]);
}

#[test]
fn sizes_follow_from_weight_shapes() {
    let mut rng = Rng::new(4);
    let net = random_mlp(&mut rng, &[6, 16, 16, 3]);
    assert_eq!(infer_sizes(&net.params), vec![6, 16, 16, 3]);
}

#[test]
fn file_layout_is_little_endian() {
    let a = Array::from_vec(&[2], vec![0x0403_0201u32, 7]);
    let bytes = encode_params(&[a]);
    let mut expect = vec![1, 0, 0, 0, 0, 0, 0, 0];
    expect.extend_from_slice(&[1, 0, 0, 0, 0, 0, 0, 0]);
    expect.extend_from_slice(&[2, 0, 0, 0, 0, 0, 0, 0]);
    expect.extend_from_slice(&[1, 2, 3, 4, 7, 0, 0, 0]);
    assert_eq!(bytes, expect);
}

#[test]
fn truncated_file_is_refused() {
    let mut rng = Rng::new(1);
    let net = random_mlp(&mut rng, &[2, 3, 1]);
    let bytes = net.save_bytes();
    for cut in 0..bytes.len() {
        assert_eq!(decode_params(&bytes[..cut]).unwrap_err(), LoadError::UnexpectedEof);
    }
    assert!(decode_params(&bytes).is_ok());
}

#[test]
fn trailing_bytes_are_ignored() {
    let mut rng = Rng::new(1);
    let net = random_mlp(&mut rng, &[2, 3, 1]);
    let mut bytes = net.save_bytes();
    bytes.extend_from_slice(&[0xff; 13]);
    let back = Mlp::load_bytes(&bytes).unwrap();
    assert_eq!(back.params, net.params);
}

#[test]
fn empty_file_has_no_arrays() {
    let back = Mlp::load_bytes(&[0u8; 8]).unwrap();
    assert!(back.params.is_empty());
    assert!(back.sizes.is_empty());
}

fn int_matmul(a: &Array<i64>, b: &Array<i64>) -> Array<i64> {
    a.matmul_with(b, 0, |x: i64, y: i64| x * y, |x: i64, y: i64| x + y)
}

#[test]
fn forward_output_has_batch_rows_and_last_width() {
    let sizes = [3usize, 4, 2];
    let params: Vec<Array<i64>> = layer_shapes(&sizes)
        .iter()
        .map(|shape| {
            let n: usize = shape.iter().product();
            Array::from_vec(shape, (0..n as i64).collect())
        })
        .collect();
    let net = Mlp { sizes: sizes.to_vec(), params };
    let mut tape = Tape::new();
    let x = tape.input(Array::from_vec(&[5, 3], (0..15).collect()));
    let (o, ids) = net.forward(
        &mut tape,
        x,
        int_matmul,
        |a: &Array<i64>, b: &Array<i64>| a.broadcast_rows(b, |p: i64, q: i64| p + q),
        |a: &Array<i64>| a.map(|e: i64| e.max(0)),
    );
    assert_eq!(ids.len(), 4);
    assert_eq!(tape.value(o).shape, vec![5, 2]);
    for id in ids {
        assert_eq!(tape.grad(id), None);
    }
}
