use vstd::prelude::*;

verus! {

/// One step of the xorshift64 recurrence (shifts 13, 7, 17).
pub open spec fn xorshift(x: u64) -> u64 {
    let a = x ^ (x << 13u64);
    let b = a ^ (a >> 7u64);
    b ^ (b << 17u64)
}

/// Zero is the one fixed point of xorshift; the generator never rests there.
pub open spec fn nonzero(x: u64) -> u64 {
    if x == 0 {
        1
    } else {
        x
    }
}

/// The multiplier that spreads a seed over the whole state space.
pub open spec fn seed_mix() -> u64 {
    0x9E37_79B9_7F4A_7C15u64
}

/// The state a generator seeded with `seed` starts in.
pub open spec fn seed_state(seed: u64) -> u64 {
    nonzero(((nonzero(seed) as nat * seed_mix() as nat) % 0x1_0000_0000_0000_0000nat) as u64)
}

/// A seeded xorshift64 pseudo-random generator: every run with the same seed
/// draws the same numbers.
#[derive(Clone, Debug)]
pub struct Rng {
    state: u64,
}

impl View for Rng {
    type V = u64;

    closed spec fn view(&self) -> u64 {
        self.state
    }
}

impl Rng {
    /// The generator's state is never zero.
    pub open spec fn wf(&self) -> bool {
        self@ != 0
    }

    pub fn new(seed: u64) -> (r: Rng)
        ensures
            r@ == seed_state(seed),
            r.wf(),
    {
        let s = if seed < 1 {
            1
        } else {
            seed
        };
        let m = s.wrapping_mul(0x9E37_79B9_7F4A_7C15u64);
        let state = if m < 1 {
            1
        } else {
            m
        };
        Rng { state }
    }

    /// Advances the state and returns the raw xorshift output.
    pub fn next_u64(&mut self) -> (x: u64)
        ensures
            x == xorshift(old(self)@),
            final(self)@ == nonzero(x),
            final(self).wf(),
    {
        let mut x = self.state;
        x = x ^ (x << 13u64);
        x = x ^ (x >> 7u64);
        x = x ^ (x << 17u64);
        self.state = if x < 1 {
            1
        } else {
            x
        };
        x
    }
}

/// The state of a generator that started in `state` after `k` raw draws.
pub open spec fn state_after(state: u64, k: nat) -> u64
    decreases k,
{
    if k == 0 {
        state
    } else {
        nonzero(xorshift(state_after(state, (k - 1) as nat)))
    }
}

/// Raw draw number `k` (from zero) of a generator that started in `state`.
pub open spec fn raw_draw(state: u64, k: nat) -> u64 {
    xorshift(state_after(state, k))
}

/// The next raw draw is draw number zero, and the draws after it are those of
/// the state it leaves behind: a run of `next_u64` calls yields `raw_draw` in
/// order.
pub proof fn lemma_draws_shift(state: u64, k: nat)
    ensures
        raw_draw(state, 0) == xorshift(state),
        raw_draw(state, k + 1) == raw_draw(nonzero(xorshift(state)), k),
        state_after(state, k + 1) == state_after(nonzero(xorshift(state)), k),
    decreases k,
{
    if k > 0 {
        lemma_draws_shift(state, (k - 1) as nat);
    }
}

/// Two generators made from the same seed draw the same numbers: their `k`-th
/// raw draws agree for every `k`.
pub proof fn lemma_same_seed_same_draws(a: Rng, b: Rng, seed: u64, k: nat)
    requires
        a@ == seed_state(seed),
        b@ == seed_state(seed),
    ensures
        raw_draw(a@, k) == raw_draw(b@, k),
        state_after(a@, k) == state_after(b@, k),
{
}

/// The sequence `s` with the elements at `i` and `j` exchanged.
pub open spec fn swapped<T>(s: Seq<T>, i: int, j: int) -> Seq<T> {
    s.update(i, s[j]).update(j, s[i])
}

/// Fisher-Yates from position `i` down to position 1: the sequence and the
/// generator state once every position down to 1 has drawn its partner.
pub open spec fn fisher_yates<T>(s: Seq<T>, state: u64, i: nat) -> (Seq<T>, u64)
    decreases i,
{
    if i == 0 {
        (s, state)
    } else {
        let x = xorshift(state);
        let j = (x % ((i + 1) as u64)) as int;
        fisher_yates(swapped(s, i as int, j), nonzero(x), (i - 1) as nat)
    }
}

/// What `shuffle` makes of `s` when the generator starts in `state`.
pub open spec fn shuffled<T>(s: Seq<T>, state: u64) -> (Seq<T>, u64) {
    if s.len() <= 1 {
        (s, state)
    } else {
        fisher_yates(s, state, (s.len() - 1) as nat)
    }
}

/// `<[T]>::swap` exchanges the elements at the two positions.
#[verifier::external_body]
fn slice_swap<T>(xs: &mut [T], i: usize, j: usize)
    requires
        i < old(xs)@.len(),
        j < old(xs)@.len(),
    ensures
        final(xs)@ == swapped(old(xs)@, i as int, j as int),
{
    xs.swap(i, j)
}

impl Rng {
    /// The high half of the next raw output.
    pub fn next_u32(&mut self) -> (x: u32)
        ensures
            x == xorshift(old(self)@) / 0x1_0000_0000,
            final(self)@ == nonzero(xorshift(old(self)@)),
            final(self).wf(),
    {
        let x = self.next_u64();
        proof {
            assert(x >> 32u64 == x / 0x1_0000_0000) by (bit_vector);
        }
        (x >> 32u64) as u32
    }

    /// A draw in `0..n`: the next raw output reduced modulo `n`.
    pub fn below(&mut self, n: usize) -> (r: usize)
        requires
            n > 0,
        ensures
            r == xorshift(old(self)@) % (n as u64),
            r < n,
            final(self)@ == nonzero(xorshift(old(self)@)),
            final(self).wf(),
    {
        let x = self.next_u64();
        (x % (n as u64)) as usize
    }

    /// Shuffles `xs` in place by Fisher-Yates, drawing one partner for every
    /// position from the last down to the second.
    pub fn shuffle<T>(&mut self, xs: &mut [T])
        ensures
            (final(xs)@, final(self)@) == shuffled(old(xs)@, old(self)@),
            final(xs)@.to_multiset() == old(xs)@.to_multiset(),
            old(self).wf() ==> final(self).wf(),
    {
        let n = xs.len();
        if n <= 1 {
            return ;
        }
        let mut i: usize = n - 1;
        while i >= 1
            invariant
                1 <= n,
                i < n,
                xs@.len() == n,
                old(xs)@.len() == n,
                fisher_yates(xs@, self@, i as nat) == shuffled(old(xs)@, old(self)@),
                xs@.to_multiset() == old(xs)@.to_multiset(),
                old(self).wf() ==> self.wf(),
            decreases i,
        {
            let ghost before = xs@;
            let j = self.below(i + 1);
            slice_swap(xs, i, j);
            proof {
                lemma_swap_keeps_multiset(before, i as int, j as int);
            }
            i = i - 1;
        }
    }

    /// A uniformly drawn element of a non-empty slice.
    pub fn choice<'a, T>(&mut self, xs: &'a [T]) -> (r: &'a T)
        requires
            xs@.len() > 0,
        ensures
            *r == xs@[(xorshift(old(self)@) % (xs@.len() as u64)) as int],
            final(self)@ == nonzero(xorshift(old(self)@)),
            final(self).wf(),
    {
        let k = self.below(xs.len());
        &xs[k]
    }
}

/// Exchanging two elements keeps the multiset of elements.
pub proof fn lemma_swap_keeps_multiset<T>(s: Seq<T>, i: int, j: int)
    requires
        0 <= i < s.len(),
        0 <= j < s.len(),
    ensures
        swapped(s, i, j).to_multiset() == s.to_multiset(),
{
    broadcast use vstd::seq_lib::to_multiset_update;
    broadcast use vstd::seq_lib::to_multiset_contains;
    broadcast use vstd::multiset::group_multiset_axioms;

    let m = s.to_multiset();
    let a = s[j];
    let b = s[i];
    let t = s.update(i, a);
    assert(s.contains(b));
    assert(t[j] == a);
    assert(t.to_multiset() == m.insert(a).remove(b));
    assert(swapped(s, i, j).to_multiset() == t.to_multiset().insert(b).remove(a));
    assert(m.count(b) > 0);
    assert(swapped(s, i, j).to_multiset() =~= m);
}

/// Shuffling never changes which elements are present, nor how often.
pub proof fn lemma_shuffle_is_permutation<T>(s: Seq<T>, state: u64)
    requires
        s.len() <= usize::MAX,
    ensures
        shuffled(s, state).0.to_multiset() == s.to_multiset(),
{
    if s.len() > 1 {
        lemma_fisher_yates_permutes(s, state, (s.len() - 1) as nat);
    }
}

proof fn lemma_fisher_yates_permutes<T>(s: Seq<T>, state: u64, i: nat)
    requires
        i < s.len(),
        s.len() <= usize::MAX,
    ensures
        fisher_yates(s, state, i).0.to_multiset() == s.to_multiset(),
        fisher_yates(s, state, i).0.len() == s.len(),
    decreases i,
{
    if i > 0 {
        let x = xorshift(state);
        let j = (x % ((i + 1) as u64)) as int;
        lemma_swap_keeps_multiset(s, i as int, j);
        lemma_fisher_yates_permutes(swapped(s, i as int, j), nonzero(x), (i - 1) as nat);
    }
}

proof fn lemma_fisher_yates_keeps_above<T>(s: Seq<T>, state: u64, i: nat)
    requires
        i < s.len(),
        s.len() <= usize::MAX,
    ensures
        fisher_yates(s, state, i).0.len() == s.len(),
        forall|k: int| i < k < s.len() ==> #[trigger] fisher_yates(s, state, i).0[k] == s[k],
    decreases i,
{
    if i > 0 {
        let x = xorshift(state);
        let j = (x % ((i + 1) as u64)) as int;
        let t = swapped(s, i as int, j);
        lemma_fisher_yates_keeps_above(t, nonzero(x), (i - 1) as nat);
        assert forall|k: int| i < k < s.len() implies #[trigger] fisher_yates(s, state, i).0[k]
            == s[k] by {
            assert(fisher_yates(t, nonzero(x), (i - 1) as nat).0[k] == t[k]);
        }
    }
}

/// Shuffling settles the last position first: it ends up holding the input
/// element at the first draw reduced modulo the length, any position from
/// the first to the last itself.
pub proof fn lemma_shuffle_last<T>(s: Seq<T>, state: u64)
    requires
        2 <= s.len() <= usize::MAX,
    ensures
        shuffled(s, state).0.len() == s.len(),
        shuffled(s, state).0[s.len() - 1] == s[(xorshift(state) % (s.len() as u64)) as int],
{
    let n = s.len();
    let i = (n - 1) as nat;
    let x = xorshift(state);
    let j = (x % ((i + 1) as u64)) as int;
    let t = swapped(s, i as int, j);
    lemma_fisher_yates_keeps_above(s, state, i);
    if i > 0 {
        lemma_fisher_yates_keeps_above(t, nonzero(x), (i - 1) as nat);
        assert(fisher_yates(t, nonzero(x), (i - 1) as nat).0[i as int] == t[i as int]);
    }
    assert((i + 1) as u64 == n as u64);
}

/// The draws `n` calls of `below(m)` make from `state`, and the state after
/// them.
pub open spec fn below_draws(state: u64, m: u64, n: nat) -> (Seq<usize>, u64)
    decreases n,
{
    if n == 0 {
        (Seq::empty(), state)
    } else {
        let (d, s) = below_draws(state, m, (n - 1) as nat);
        let x = xorshift(s);
        (d.push((x % m) as usize), nonzero(x))
    }
}

} // verus!
