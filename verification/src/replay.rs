use vstd::prelude::*;
use crate::rand::{Rng, below_draws};

verus! {

/// The last `cap` elements of `s` (all of `s` when it is shorter).
pub open spec fn keep_last<T>(s: Seq<T>, cap: nat) -> Seq<T> {
    if s.len() > cap {
        s.subrange(s.len() - cap, s.len() as int)
    } else {
        s
    }
}

/// A bounded experience-replay memory: it keeps the most recent `cap`
/// items in the order they came, and draws them uniformly by index.
pub struct Replay<T> {
    buf: Vec<T>,
    cap: usize,
}

impl<T> View for Replay<T> {
    type V = Seq<T>;

    closed spec fn view(&self) -> Seq<T> {
        self.buf@
    }
}

impl<T> Replay<T> {
    #[verifier::type_invariant]
    spec fn inv(self) -> bool {
        self.buf@.len() <= self.cap
    }

    /// How many items the memory keeps at most.
    pub closed spec fn capacity(&self) -> nat {
        self.cap as nat
    }

    /// An empty memory keeping at most `cap` items.
    pub fn new(cap: usize) -> (r: Replay<T>)
        ensures
            r@ == Seq::<T>::empty(),
            r.capacity() == cap,
    {
        let buf: Vec<T> = Vec::with_capacity(if cap < 1024 {
            cap
        } else {
            1024
        });
        Replay { buf, cap }
    }

    /// The number of items held.
    pub fn len(&self) -> (n: usize)
        ensures
            n == self@.len(),
            n <= self.capacity(),
    {
        proof {
            use_type_invariant(self);
        }
        self.buf.len()
    }

    /// Item `i`, oldest first.
    pub fn get(&self, i: usize) -> (r: &T)
        requires
            i < self@.len(),
        ensures
            *r == self@[i as int],
    {
        &self.buf[i]
    }

    /// Adds an item, dropping the oldest one when the memory is full; a
    /// memory that keeps nothing takes no item.
    pub fn push(&mut self, t: T)
        requires
            old(self).capacity() >= 1,
        ensures
            final(self).capacity() == old(self).capacity(),
            final(self)@ == (if old(self)@.len() == old(self).capacity() {
                old(self)@.drop_first().push(t)
            } else {
                old(self)@.push(t)
            }),
            final(self)@ == keep_last(old(self)@.push(t), old(self).capacity()),
            final(self)@.len() <= final(self).capacity(),
    {
        proof {
            use_type_invariant(&*self);
        }
        let ghost old_buf = self.buf@;
        let mut buf = Vec::new();
        std::mem::swap(&mut buf, &mut self.buf);
        if buf.len() == self.cap {
            buf.remove(0);
        }
        buf.push(t);
        self.buf = buf;
        assert(self.buf@ =~= keep_last(old_buf.push(t), self.cap as nat));
    }

    /// `n` indices drawn with `below(len)`, one after the other.
    pub fn sample_indices(&self, rng: &mut Rng, n: usize) -> (idx: Vec<usize>)
        requires
            n == 0 || self@.len() > 0,
        ensures
            (idx@, final(rng)@) == below_draws(old(rng)@, self@.len() as u64, n as nat),
            forall|i: int| 0 <= i < idx@.len() ==> #[trigger] idx@[i] < self@.len(),
            old(rng).wf() ==> final(rng).wf(),
    {
        let m = self.buf.len();
        let mut idx: Vec<usize> = Vec::new();
        let mut k: usize = 0;
        while k < n
            invariant
                m == self@.len(),
                n == 0 || m > 0,
                k <= n,
                (idx@, rng@) == below_draws(old(rng)@, m as u64, k as nat),
                forall|i: int| 0 <= i < idx@.len() ==> #[trigger] idx@[i] < m,
                old(rng).wf() ==> rng.wf(),
            decreases n - k,
        {
            let j = rng.below(m);
            idx.push(j);
            k = k + 1;
        }
        idx
    }
}

/// The memory always holds the last `cap` items ever pushed: keeping the
/// last `cap` items of a history and then pushing is the same as pushing
/// onto the whole history and keeping its last `cap` items.
pub proof fn lemma_keep_last_push<T>(h: Seq<T>, t: T, cap: nat)
    requires
        cap >= 1,
    ensures
        keep_last(keep_last(h, cap).push(t), cap) == keep_last(h.push(t), cap),
{
    assert(keep_last(keep_last(h, cap).push(t), cap) =~= keep_last(h.push(t), cap));
}

} // verus!
