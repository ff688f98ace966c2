use vstd::prelude::*;

verus! {

/// A byte source with a remaining-byte budget.
///
/// Reads never go past the budget, and every byte read is taken off it, so a
/// nested read cannot run into the bytes that follow its declared extent.
pub struct Take {
    inner: Vec<u8>,
    pos: usize,
    limit: u64,
}

impl Take {
    #[verifier::type_invariant]
    spec fn inv(&self) -> bool {
        self.pos <= self.inner@.len()
    }

    /// The bytes of the source that have not been read yet.
    pub closed spec fn rest(&self) -> Seq<u8> {
        self.inner@.subrange(self.pos as int, self.inner@.len() as int)
    }

    /// The remaining budget.
    pub closed spec fn budget(&self) -> u64 {
        self.limit
    }

    /// The bytes that reads can still return: the unread bytes, cut at the budget.
    pub open spec fn available(&self) -> Seq<u8> {
        if (self.budget() as nat) < self.rest().len() {
            self.rest().take(self.budget() as int)
        } else {
            self.rest()
        }
    }

    /// Whether `self` is `before` with some of its available bytes read: the
    /// unread bytes and the budget have both dropped by that many.
    pub open spec fn progressed(&self, before: Take) -> bool {
        let c = before.rest().len() - self.rest().len();
        &&& self.rest().len() <= before.rest().len()
        &&& c <= before.available().len()
        &&& self.rest() == before.rest().skip(c)
        &&& self.budget() == before.budget() - c
    }

    pub fn new(inner: Vec<u8>, limit: u64) -> (r: Take)
        ensures
            r.rest() == inner@,
            r.budget() == limit,
    {
        let r = Take { inner, pos: 0, limit };
        proof {
            assert(r.rest() =~= inner@);
        }
        r
    }

    /// The number of bytes that can be read before this reader reports the end.
    /// The source itself may end sooner.
    pub fn limit(&self) -> (r: u64)
        ensures
            r == self.budget(),
    {
        self.limit
    }

    pub fn set_limit(&mut self, limit: u64)
        ensures
            final(self).rest() == old(self).rest(),
            final(self).budget() == limit,
    {
        proof {
            use_type_invariant(&*self);
        }
        self.limit = limit;
    }

    /// The number of unread bytes of the source, whatever the budget.
    pub fn remaining(&self) -> (r: usize)
        ensures
            r == self.rest().len(),
    {
        proof {
            use_type_invariant(self);
        }
        self.inner.len() - self.pos
    }

    /// Reads one byte, or returns `None` at the end of the budget or of the source.
    pub fn read_byte(&mut self) -> (r: Option<u8>)
        ensures
            old(self).available().len() == 0 ==> r is None && *final(self) == *old(self),
            old(self).available().len() > 0 ==> r == Some(old(self).available()[0])
                && final(self).rest() == old(self).rest().drop_first()
                && final(self).budget() == old(self).budget() - 1,
    {
        proof {
            use_type_invariant(&*self);
        }
        if self.limit == 0 || self.pos >= self.inner.len() {
            return None;
        }
        let b = self.inner[self.pos];
        self.pos = self.pos + 1;
        self.limit = self.limit - 1;
        proof {
            assert(self.rest() =~= old(self).rest().drop_first());
        }
        Some(b)
    }

    /// Reads up to `max` bytes: as many as the budget and the source allow.
    pub fn read(&mut self, max: usize) -> (r: Vec<u8>)
        ensures
            r@ == old(self).available().take(r@.len() as int),
            r@.len() == if max < old(self).available().len() {
                max as int
            } else {
                old(self).available().len() as int
            },
            final(self).rest() == old(self).rest().skip(r@.len() as int),
            final(self).budget() == old(self).budget() - r@.len(),
    {
        let mut out: Vec<u8> = Vec::new();
        while out.len() < max
            invariant
                out@.len() <= max,
                out@.len() <= old(self).available().len(),
                out@ == old(self).available().take(out@.len() as int),
                self.rest() == old(self).rest().skip(out@.len() as int),
                self.budget() == old(self).budget() - out@.len(),
                self.available() == old(self).available().skip(out@.len() as int),
            ensures
                out@.len() == max || out@.len() == old(self).available().len(),
                out@.len() <= max,
                out@.len() <= old(self).available().len(),
                out@ == old(self).available().take(out@.len() as int),
                self.rest() == old(self).rest().skip(out@.len() as int),
                self.budget() == old(self).budget() - out@.len(),
            decreases max - out@.len(),
        {
            match self.read_byte() {
                Some(b) => {
                    proof {
                        assert(self.rest() =~= old(self).rest().skip((out@.len() + 1) as int));
                        assert(out@.push(b) =~= old(self).available().take((out@.len() + 1) as int));
                        assert(self.available() =~= old(self).available().skip((out@.len() + 1) as int));
                    }
                    out.push(b);
                },
                None => {
                    break;
                },
            }
        }
        out
    }

    /// The number of bytes reads can still return.
    pub fn available_len(&self) -> (r: usize)
        ensures
            r == self.available().len(),
    {
        proof {
            use_type_invariant(self);
        }
        let rem = self.inner.len() - self.pos;
        if (rem as u64) < self.limit {
            rem
        } else {
            self.limit as usize
        }
    }

    /// Drops the next `n` available bytes.
    pub fn skip_bytes(&mut self, n: usize)
        requires
            n <= old(self).available().len(),
        ensures
            final(self).rest() == old(self).rest().skip(n as int),
            final(self).budget() == old(self).budget() - n,
    {
        proof {
            use_type_invariant(&*self);
            assert(self.rest().len() == self.inner@.len() - self.pos);
            assert(self.available().len() <= self.rest().len());
            assert(self.available().len() <= self.limit);
        }
        let len = self.inner.len();
        assert(self.pos + n <= len);
        self.pos = self.pos + n;
        self.limit = self.limit - n as u64;
        proof {
            assert(self.rest() =~= old(self).rest().skip(n as int));
        }
    }
}

/// Reading nothing is progress.
pub proof fn lemma_progressed_refl(s: Take)
    ensures
        s.progressed(s),
{
    assert(s.rest().skip(0) =~= s.rest());
}

/// Progress adds up.
pub proof fn lemma_progressed_trans(s0: Take, s1: Take, s2: Take)
    requires
        s1.progressed(s0),
        s2.progressed(s1),
    ensures
        s2.progressed(s0),
{
    let c1 = s0.rest().len() - s1.rest().len();
    let c2 = s1.rest().len() - s2.rest().len();
    assert(s1.available().len() == s0.available().len() - c1);
    assert(s2.rest() =~= s0.rest().skip(c1 + c2));
}

/// Reading `n` available bytes is progress.
pub proof fn lemma_progressed_by(before: Take, after: Take, n: nat)
    requires
        n <= before.available().len(),
        after.rest() == before.rest().skip(n as int),
        after.budget() == before.budget() - n,
    ensures
        after.progressed(before),
{
}

} // verus!
