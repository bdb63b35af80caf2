use vstd::prelude::*;

verus! {

// ---------------------------------------------------------------------------
// Played-topics bitmaps
// ---------------------------------------------------------------------------

/// How many bits are set.
pub open spec fn popcount(s: Seq<bool>) -> int
    decreases s.len(),
{
    if s.len() == 0 {
        0int
    } else {
        popcount(s.drop_last()) + (if s.last() {
            1int
        } else {
            0int
        })
    }
}

pub proof fn lemma_popcount_le_len(s: Seq<bool>)
    ensures
        0 <= popcount(s) <= s.len(),
{
    lemma_popcount_bounds(s);
}

proof fn lemma_popcount_bounds(s: Seq<bool>)
    ensures
        0 <= popcount(s) <= s.len(),
    decreases s.len(),
{
    if s.len() > 0 {
        lemma_popcount_bounds(s.drop_last());
    }
}

proof fn lemma_popcount_lt(s: Seq<bool>, i: int)
    requires
        0 <= i < s.len(),
        !s[i],
    ensures
        popcount(s) < s.len(),
    decreases s.len(),
{
    lemma_popcount_bounds(s.drop_last());
    if i < s.len() - 1 {
        lemma_popcount_lt(s.drop_last(), i);
    }
}

proof fn lemma_popcount_update_true(s: Seq<bool>, i: int)
    requires
        0 <= i < s.len(),
        !s[i],
    ensures
        popcount(s.update(i, true)) == popcount(s) + 1,
    decreases s.len(),
{
    let t = s.update(i, true);
    if i == s.len() - 1 {
        assert(t.drop_last() =~= s.drop_last());
    } else {
        assert(t.drop_last() =~= s.drop_last().update(i, true));
        lemma_popcount_update_true(s.drop_last(), i);
    }
}


/// The bits extended with zeros up to `total` when shorter.
pub open spec fn padded(bits: Seq<bool>, total: int) -> Seq<bool> {
    if bits.len() >= total {
        bits
    } else {
        bits + Seq::new((total - bits.len()) as nat, |i: int| false)
    }
}

/// A bitmap over the topics of one package, with the count of set bits kept
/// beside it.
pub struct BitSet {
    pub size: usize,
    pub set: Vec<bool>,
}

impl BitSet {
    /// The bits themselves.
    pub open spec fn bits(&self) -> Seq<bool> {
        self.set@
    }

    /// The `size` field counts the set bits at all times.
    pub open spec fn inv(&self) -> bool {
        self.size == popcount(self.bits())
    }

    pub open spec fn spec_len(&self) -> int {
        self.bits().len() as int
    }

    pub fn new(len: usize) -> (r: BitSet)
        ensures
            r.inv(),
            r.bits().len() == len,
            forall|i: int| 0 <= i < len ==> !r.bits()[i],
            r.size == 0,
    {
        let mut set: Vec<bool> = Vec::new();
        let mut i: usize = 0;
        while i < len
            invariant
                i <= len,
                set@.len() == i,
                forall|j: int| 0 <= j < i ==> !set@[j],
            decreases len - i,
        {
            set.push(false);
            i += 1;
        }
        proof {
            lemma_popcount_all_false(set@);
        }
        BitSet { size: 0, set }
    }

    pub fn len(&self) -> (r: usize)
        ensures
            r == self.bits().len(),
    {
        self.set.len()
    }

    pub fn is_set(&self, index: usize) -> (r: bool)
        requires
            index < self.bits().len(),
        ensures
            r == self.bits()[index as int],
    {
        self.set[index]
    }

    pub fn set_bit(&mut self, index: usize)
        requires
            old(self).inv(),
            index < old(self).bits().len(),
        ensures
            final(self).inv(),
            final(self).bits() == old(self).bits().update(index as int, true),
            old(self).bits()[index as int] ==> *final(self) == *old(self),
            final(self).size == popcount(final(self).bits()),
    {
        if self.is_set(index) {
            proof {
                assert(self.bits().update(index as int, true) =~= self.bits());
            }
            return ;
        }
        let n = self.set.len();
        proof {
            lemma_popcount_update_true(self.bits(), index as int);
            lemma_popcount_lt(self.bits(), index as int);
            assert(self.size < n);
        }
        self.size = self.size + 1;
        self.set[index] = true;
    }


    /// Extends the bitmap with unset bits when a package grew.
    pub fn grow(&mut self, len: usize)
        requires
            old(self).inv(),
        ensures
            final(self).inv(),
            final(self).bits() == padded(old(self).bits(), len as int),
            final(self).bits().len() >= len,
            final(self).size == old(self).size,
    {
        let ghost orig = self.bits();
        if self.set.len() >= len {
            proof {
                assert(padded(orig, len as int) == orig);
            }
            return ;
        }
        while self.set.len() < len
            invariant
                self.size == popcount(self.bits()),
                self.bits().len() >= orig.len(),
                self.bits().len() <= len,
                self.bits().subrange(0, orig.len() as int) == orig,
                forall|j: int| orig.len() <= j < self.bits().len() ==> !self.bits()[j],
                self.size == old(self).size,
            decreases len - self.set.len(),
        {
            let ghost pre = self.bits();
            self.set.push(false);
            proof {
                assert(self.bits().drop_last() =~= pre);
                assert(self.bits().subrange(0, orig.len() as int) =~= pre.subrange(
                    0,
                    orig.len() as int,
                ));
            }
        }
        proof {
            assert(self.bits() =~= padded(orig, len as int));
        }
    }

    /// Bitwise union with another bitmap of the same package.
    pub fn unite(&mut self, right: &BitSet)
        requires
            old(self).bits().len() == right.bits().len(),
        ensures
            final(self).inv(),
            final(self).bits().len() == old(self).bits().len(),
            forall|i: int|
                0 <= i < final(self).bits().len() ==> #[trigger] final(self).bits()[i] == (old(self).bits()[i] || right.bits()[i]),
    {
        let n = self.set.len();
        let mut newset: Vec<bool> = Vec::new();
        let mut size: usize = 0;
        let mut i: usize = 0;
        while i < n
            invariant
                n == self.bits().len(),
                right.bits().len() == n,
                i <= n,
                newset@.len() == i,
                size <= i,
                size == popcount(newset@),
                forall|j: int| 0 <= j < i ==> newset@[j] == (self.bits()[j] || right.bits()[j]),
            decreases n - i,
        {
            let a = self.set[i];
            let b = right.is_set(i);
            let v = a || b;
            let ghost prev = newset@;
            newset.push(v);
            proof {
                assert(newset@.drop_last() =~= prev);
            }
            if v {
                size += 1;
            }
            i += 1;
        }
        self.set = newset;
        self.size = size;
    }
}

proof fn lemma_popcount_all_false(s: Seq<bool>)
    requires
        forall|j: int| 0 <= j < s.len() ==> !s[j],
    ensures
        popcount(s) == 0,
    decreases s.len(),
{
    if s.len() > 0 {
        assert forall|j: int| 0 <= j < s.drop_last().len() implies !s.drop_last()[j] by {
            assert(s.drop_last()[j] == s[j]);
        }
        lemma_popcount_all_false(s.drop_last());
    }
}


} // verus!
