use neonate::autograd::{Id, Kind, Tape};

#[test]
fn ids_count_up() {
    let mut t: Tape<i64> = Tape::new();
    let a = t.input(3);
    let b = t.param(4);
    let c = t.push(Kind::Add, vec![a, b], None, 7);
    assert_eq!((a, b, c), (Id(0), Id(1), Id(2)));
    assert_eq!(*t.value(c), 7);
    assert_eq!(t.kind(c), Kind::Add);
    assert_eq!(t.inputs(c), &vec![Id(0), Id(1)]);
    assert!(t.grad(c).is_none());
    assert_eq!(t.len(), 3);
}

#[test]
fn gradients_accumulate_and_reset() {
    let mut t: Tape<i64> = Tape::new();
    let a = t.input(1);
    t.accumulate(a, 5, |x: &i64, y: &i64| x + y);
    assert_eq!(t.grad(a), Some(&5));
    t.accumulate(a, 6, |x: &i64, y: &i64| x + y);
    assert_eq!(t.grad(a), Some(&11));
    t.update_grad(a, |g: i64| g * 2);
    assert_eq!(t.grad(a), Some(&22));
    t.zero_grad();
    assert_eq!(t.grad(a), None);
    assert_eq!(*t.value(a), 1);
}

#[test]
fn loss_keeps_its_target() {
    let mut t: Tape<i64> = Tape::new();
    let p = t.input(2);
    let l = t.push(Kind::Mse, vec![p], Some(9), 49);
    assert_eq!(t.target(l), &Some(9));
    assert_eq!(t.kind(p), Kind::Input);
}

#[test]
fn default_tape_is_empty() {
    let t: Tape<u8> = Tape::default();
    assert_eq!(t.len(), 0);
}
