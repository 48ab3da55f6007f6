//! A pool of scratch buffers, kept by exact length.
use vstd::prelude::*;

verus! {

/// Buffers kept per length.
pub const MAX_PER_SIZE: usize = 4;

/// Buffers kept per length among huge ones.
pub const MAX_PER_HUGE_SIZE: usize = 1;

/// Lengths from here on are huge.
pub const HUGE_SIZE_THRESHOLD: usize = 0x800_0000;

/// How many buffers of length `n` the pool may keep.
pub open spec fn cap(n: nat) -> nat {
    if n >= HUGE_SIZE_THRESHOLD {
        MAX_PER_HUGE_SIZE as nat
    } else {
        MAX_PER_SIZE as nat
    }
}

/// How many of the buffers have length `n`.
pub open spec fn count_of(buffers: Seq<Vec<u64>>, n: nat) -> nat
    decreases buffers.len(),
{
    if buffers.len() == 0 {
        0
    } else {
        count_of(buffers.drop_last(), n) + if buffers.last()@.len() == n {
            1nat
        } else {
            0nat
        }
    }
}

/// Taking out a buffer lowers the count of its length by one.
proof fn lemma_count_remove(buffers: Seq<Vec<u64>>, i: int, n: nat)
    requires
        0 <= i < buffers.len(),
    ensures
        count_of(buffers.remove(i), n) + (if buffers[i]@.len() == n {
            1nat
        } else {
            0nat
        }) == count_of(buffers, n),
    decreases buffers.len(),
{
    if i == buffers.len() - 1 {
        assert(buffers.remove(i) =~= buffers.drop_last());
    } else {
        lemma_count_remove(buffers.drop_last(), i, n);
        assert(buffers.remove(i).drop_last() =~= buffers.drop_last().remove(i));
        assert(buffers.remove(i).last() == buffers.last());
    }
}

/// Without a buffer of length `n` the count is zero.
proof fn lemma_count_none(buffers: Seq<Vec<u64>>, n: nat)
    requires
        forall|i: int| 0 <= i < buffers.len() ==> (#[trigger] buffers[i])@.len() != n,
    ensures
        count_of(buffers, n) == 0,
    decreases buffers.len(),
{
    if buffers.len() > 0 {
        let d = buffers.drop_last();
        assert forall|i: int| 0 <= i < d.len() implies (#[trigger] d[i])@.len() != n by {
            assert(d[i] == buffers[i]);
        }
        lemma_count_none(d, n);
    }
}

/// Released buffers, oldest first.
pub struct Pool {
    pub buffers: Vec<Vec<u64>>,
}

impl Pool {
    /// No length is held more often than its cap allows.
    pub open spec fn wf(&self) -> bool {
        forall|n: nat| #[trigger] count_of(self.buffers@, n) <= cap(n)
    }

    /// An empty pool.
    pub fn new() -> (p: Pool)
        ensures
            p.wf(),
            p.buffers@ == Seq::<Vec<u64>>::empty(),
    {
        Pool { buffers: Vec::new() }
    }

    /// How many buffers of length `n` the pool holds.
    pub fn pooled_count_at_size(&self, n: usize) -> (c: usize)
        ensures
            c == count_of(self.buffers@, n as nat),
    {
        let mut c: usize = 0;
        let mut i: usize = 0;
        proof {
            assert(self.buffers@.take(0).len() == 0);
        }
        while i < self.buffers.len()
            invariant
                i <= self.buffers@.len(),
                c <= i,
                c == count_of(self.buffers@.take(i as int), n as nat),
            decreases self.buffers@.len() - i,
        {
            proof {
                assert(self.buffers@.take(i + 1).drop_last() =~= self.buffers@.take(i as int));
            }
            if self.buffers[i].len() == n {
                c += 1;
            }
            i += 1;
        }
        proof {
            assert(self.buffers@.take(i as int) =~= self.buffers@);
        }
        c
    }

    /// Take out the buffer of length `n` that was released last.
    pub fn pop(&mut self, n: usize) -> (r: Option<Vec<u64>>)
        requires
            old(self).wf(),
        ensures
            final(self).wf(),
            match r {
                Some(buf) => buf@.len() == n && exists|i: int|
                    0 <= i < old(self).buffers@.len() && #[trigger] old(self).buffers@[i] == buf
                        && (forall|k: int|
                        i < k < old(self).buffers@.len() ==> (#[trigger] old(
                            self,
                        ).buffers@[k])@.len() != n) && final(self).buffers@ == old(
                        self,
                    ).buffers@.remove(i),
                None => *final(self) == *old(self) && count_of(old(self).buffers@, n as nat) == 0,
            },
    {
        let ghost before = self.buffers@;
        let mut i: usize = self.buffers.len();
        while i > 0 && self.buffers[i - 1].len() != n
            invariant
                self.buffers@ == before,
                i <= before.len(),
                forall|k: int| i <= k < before.len() ==> (#[trigger] before[k])@.len() != n,
            decreases i,
        {
            i -= 1;
        }
        if i == 0 {
            proof {
                lemma_count_none(before, n as nat);
            }
            return None;
        }
        let buf: Vec<u64> = self.buffers.remove(i - 1);
        proof {
            assert(before[i - 1] == buf);
            assert forall|m: nat| #[trigger] count_of(self.buffers@, m) <= cap(m) by {
                lemma_count_remove(before, i - 1, m);
                assert(count_of(before, m) <= cap(m));
            }
        }
        Some(buf)
    }

    /// Put a buffer back, unless the pool holds enough of its length.
    pub fn push(&mut self, buf: Vec<u64>)
        requires
            old(self).wf(),
        ensures
            final(self).wf(),
            final(self).buffers@ == if count_of(old(self).buffers@, buf@.len()) < cap(buf@.len()) {
                old(self).buffers@.push(buf)
            } else {
                old(self).buffers@
            },
    {
        let n: usize = buf.len();
        let limit: usize = if n >= HUGE_SIZE_THRESHOLD {
            MAX_PER_HUGE_SIZE
        } else {
            MAX_PER_SIZE
        };
        let ghost before = self.buffers@;
        if self.pooled_count_at_size(n) < limit {
            self.buffers.push(buf);
            proof {
                assert forall|m: nat| #[trigger] count_of(self.buffers@, m) <= cap(m) by {
                    assert(self.buffers@.drop_last() =~= before);
                    assert(count_of(before, m) <= cap(m));
                }
            }
        }
    }
}

/// A scratch buffer on loan from a pool.
pub struct ScratchBuf {
    pub buf: Vec<u64>,
}

impl ScratchBuf {
    /// A buffer of length `n`: one from the pool where it has one, else a new
    /// one.  What it holds is left over from its last use.
    pub fn acquire(pool: &mut Pool, n: usize) -> (s: ScratchBuf)
        requires
            old(pool).wf(),
        ensures
            final(pool).wf(),
            s.buf@.len() == n,
            count_of(old(pool).buffers@, n as nat) == 0 ==> *final(pool) == *old(pool) && s.buf@
                == Seq::new(n as nat, |i: int| 0u64),
            count_of(old(pool).buffers@, n as nat) > 0 ==> exists|i: int|
                0 <= i < old(pool).buffers@.len() && #[trigger] old(pool).buffers@[i] == s.buf && (
                forall|k: int|
                    i < k < old(pool).buffers@.len() ==> (#[trigger] old(pool).buffers@[k])@.len()
                        != n) && final(pool).buffers@ == old(pool).buffers@.remove(i),
            count_of(old(pool).buffers@, n as nat) > 0 ==> count_of(final(pool).buffers@, n as nat)
                == count_of(old(pool).buffers@, n as nat) - 1,
    {
        let ghost before = pool.buffers@;
        match pool.pop(n) {
            Some(buf) => {
                proof {
                    let i = choose|i: int|
                        0 <= i < before.len() && #[trigger] before[i] == buf && (forall|k: int|
                            i < k < before.len() ==> (#[trigger] before[k])@.len() != n)
                            && pool.buffers@ == before.remove(i);
                    lemma_count_remove(before, i, n as nat);
                }
                ScratchBuf { buf }
            },
            None => ScratchBuf { buf: vec![0u64; n] },
        }
    }

    /// Give the buffer back.
    pub fn release(self, pool: &mut Pool)
        requires
            old(pool).wf(),
        ensures
            final(pool).wf(),
            final(pool).buffers@ == if count_of(old(pool).buffers@, self.buf@.len()) < cap(
                self.buf@.len(),
            ) {
                old(pool).buffers@.push(self.buf)
            } else {
                old(pool).buffers@
            },
    {
        pool.push(self.buf);
    }
}

/// The pool keeps four buffers of a length, and one where it has 134217728 elements
/// or more; a buffer counts for its own length alone.
pub proof fn law_pool(buffers: Seq<Vec<u64>>, buf: Vec<u64>, n: nat)
    ensures
        n < 134_217_728 ==> cap(n) == 4,
        n >= 134_217_728 ==> cap(n) == 1,
        count_of(Seq::<Vec<u64>>::empty(), n) == 0,
        buf@.len() == n ==> count_of(buffers.push(buf), n) == count_of(buffers, n) + 1,
        buf@.len() != n ==> count_of(buffers.push(buf), n) == count_of(buffers, n),
{
    assert(buffers.push(buf).drop_last() =~= buffers);
}

} // verus!
