use neonate::rand::Rng;

#[test]
fn deterministic() {
    let mut a = Rng::new(42);
    let mut b = Rng::new(42);
    for _ in 0..1000 {
        assert_eq!(a.next_u64(), b.next_u64());
    }
}

fn xorshift(mut x: u64) -> u64 {
    x ^= x << 13;
    x ^= x >> 7;
    x ^= x << 17;
    x
}

#[test]
fn first_draw_follows_the_recurrence() {
    let seed: u64 = 7;
    let state = seed.wrapping_mul(0x9E37_79B9_7F4A_7C15);
    let mut r = Rng::new(seed);
    assert_eq!(r.next_u64(), xorshift(state));
    assert_eq!(r.next_u64(), xorshift(xorshift(state)));
}

#[test]
fn seed_zero_acts_as_seed_one() {
    let mut a = Rng::new(0);
    let mut b = Rng::new(1);
    for _ in 0..10 {
        assert_eq!(a.next_u64(), b.next_u64());
    }
}

#[test]
fn next_u32_is_high_half() {
    let mut a = Rng::new(5);
    let mut b = Rng::new(5);
    for _ in 0..100 {
        assert_eq!(a.next_u32() as u64, b.next_u64() >> 32);
    }
}

#[test]
fn below_stays_in_range_and_reduces() {
    let mut a = Rng::new(3);
    let mut b = Rng::new(3);
    for n in 1..200usize {
        let x = a.below(n);
        assert!(x < n);
        assert_eq!(x as u64, b.next_u64() % n as u64);
    }
}

#[test]
fn shuffle_keeps_elements() {
    let mut r = Rng::new(11);
    let mut xs: Vec<u32> = (0..50).collect();
    r.shuffle(&mut xs);
    assert_ne!(xs, (0..50).collect::<Vec<u32>>());
    let mut sorted = xs.clone();
    sorted.sort();
    assert_eq!(sorted, (0..50).collect::<Vec<u32>>());
}

#[test]
fn shuffle_of_short_slices_draws_nothing() {
    let mut r = Rng::new(11);
    let mut fresh = Rng::new(11);
    let mut one = [9u8];
    r.shuffle(&mut one);
    assert_eq!(one, [9u8]);
    assert_eq!(r.next_u64(), fresh.next_u64());
}

#[test]
fn choice_picks_the_drawn_index() {
    let xs = [10, 20, 30, 40, 50];
    let mut a = Rng::new(8);
    let mut b = Rng::new(8);
    for _ in 0..20 {
        let c = *a.choice(&xs);
        assert_eq!(c, xs[(b.next_u64() % 5) as usize]);
    }
}

#[test]
fn same_seed_same_draws_for_many_steps() {
    let mut a = Rng::new(2024);
    let mut b = Rng::new(2024);
    for _ in 0..1000 {
        assert_eq!(a.next_u64(), b.next_u64());
    }
    let mut c = Rng::new(2025);
    let mut d = Rng::new(2024);
    assert_ne!(c.next_u64(), d.next_u64());
}
