use neonate::rand::Rng;
use neonate::replay::Replay;

#[test]
fn push_keeps_the_most_recent() {
    let mut r: Replay<u32> = Replay::new(3);
    for i in 0..5u32 {
        r.push(i);
    }
    assert_eq!(r.len(), 3);
    assert_eq!(*r.get(0), 2);
    assert_eq!(*r.get(1), 3);
    assert_eq!(*r.get(2), 4);
}

#[test]
fn push_below_capacity_appends() {
    let mut r: Replay<&str> = Replay::new(10);
    r.push("a");
    r.push("b");
    assert_eq!(r.len(), 2);
    assert_eq!(*r.get(0), "a");
    assert_eq!(*r.get(1), "b");
}

#[test]
fn sample_draws_indices_with_below() {
    let mut r: Replay<u32> = Replay::new(50);
    for i in 0..7u32 {
        r.push(i * 10);
    }
    let mut rng = Rng::new(5);
    let mut twin = Rng::new(5);
    let idx = r.sample_indices(&mut rng, 64);
    assert_eq!(idx.len(), 64);
    for &i in &idx {
        assert!(i < 7);
        assert_eq!(i, twin.below(7));
    }
}

#[test]
fn empty_memory_draws_nothing() {
    let r: Replay<u8> = Replay::new(0);
    let mut rng = Rng::new(1);
    let mut twin = Rng::new(1);
    assert_eq!(r.len(), 0);
    assert!(r.sample_indices(&mut rng, 0).is_empty());
    assert_eq!(rng.next_u64(), twin.next_u64());
}
