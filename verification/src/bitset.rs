use vstd::prelude::*;

verus! {

/// Number of slots a [`Bitset`] holds.
pub const BITSET_SIZE: usize = 128;

/// Number of `true` entries of a sequence of flags.
pub open spec fn num_set(s: Seq<bool>) -> nat
    decreases s.len(),
{
    if s.len() == 0 {
        0
    } else {
        num_set(s.drop_last()) + if s.last() { 1nat } else { 0nat }
    }
}

/// Changing one flag moves the number of set flags by the difference of the
/// old and the new flag.
pub proof fn lemma_num_set_update(s: Seq<bool>, i: int, v: bool)
    requires
        0 <= i < s.len(),
    ensures
        num_set(s.update(i, v)) + (if s[i] { 1int } else { 0int }) == num_set(s) + (if v {
            1int
        } else {
            0int
        }),
    decreases s.len(),
{
    let t = s.update(i, v);
    if i == s.len() - 1 {
        assert(t.drop_last() =~= s.drop_last());
    } else {
        lemma_num_set_update(s.drop_last(), i, v);
        assert(t.drop_last() =~= s.drop_last().update(i, v));
    }
}

/// At most every flag is set.
pub proof fn lemma_num_set_le_len(s: Seq<bool>)
    ensures
        num_set(s) <= s.len(),
    decreases s.len(),
{
    if s.len() > 0 {
        lemma_num_set_le_len(s.drop_last());
    }
}

/// `count + 1`, wrapping to zero past `usize::MAX`.
pub open spec fn count_after_set(count: usize) -> usize {
    vstd::wrapping::usize_specs::wrapping_add(count, 1)
}

/// `count - 1`, wrapping to `usize::MAX` below zero.
pub open spec fn count_after_unset(count: usize) -> usize {
    vstd::wrapping::usize_specs::wrapping_sub(count, 1)
}

/// A fixed set of `BITSET_SIZE` flags together with a counter that `set` and
/// `unset` move whenever a flag actually changes.
pub struct Bitset {
    dense: Vec<bool>,
    count: usize,
}

impl Bitset {
    /// The bitset holds exactly `BITSET_SIZE` flags.
    pub open spec fn wf(self) -> bool {
        self.bits().len() == BITSET_SIZE
    }

    /// The flags, slot by slot.
    pub closed spec fn bits(self) -> Seq<bool> {
        self.dense@
    }

    /// The counter.
    pub closed spec fn count(self) -> usize {
        self.count
    }

    /// The counter agrees with the number of flags that are set.
    pub open spec fn count_consistent(self) -> bool {
        self.count() as nat == num_set(self.bits())
    }

    /// Every flag is set.
    pub open spec fn all_set(self) -> bool {
        forall|i: int| 0 <= i < BITSET_SIZE ==> #[trigger] self.bits()[i]
    }

    /// An empty bitset: no flag set, counter zero.
    pub fn new() -> (s: Self)
        ensures
            s.bits() == Seq::new(BITSET_SIZE as nat, |i: int| false),
            s.count() == 0,
            s.wf(),
            s.count_consistent(),
    {
        let mut dense: Vec<bool> = Vec::new();
        let mut i: usize = 0;
        while i < BITSET_SIZE
            invariant
                i <= BITSET_SIZE,
                dense@ == Seq::new(i as nat, |k: int| false),
            decreases BITSET_SIZE - i,
        {
            dense.push(false);
            i = i + 1;
        }
        proof {
            lemma_all_false_count(dense@);
        }
        Bitset { dense, count: 0 }
    }

    /// Sets flag `i`; the counter goes up by one when the flag was clear.
    pub fn set(&mut self, i: u32)
        requires
            old(self).wf(),
            i < BITSET_SIZE,
        ensures
            final(self).wf(),
            final(self).bits() == old(self).bits().update(i as int, true),
            final(self).count() == if old(self).bits()[i as int] {
                old(self).count()
            } else {
                count_after_set(old(self).count())
            },
            old(self).count_consistent() ==> final(self).count_consistent(),
    {
        proof {
            lemma_num_set_update(self.dense@, i as int, true);
            lemma_num_set_le_len(self.dense@);
        }
        let idx = i as usize;
        if !self.dense[idx] {
            self.dense.set(idx, true);
            self.count = self.count.wrapping_add(1);
        }
    }

    /// Clears flag `i` and returns whether it was set; the counter goes down
    /// by one when it was.
    pub fn unset(&mut self, i: u32) -> (was_set: bool)
        requires
            old(self).wf(),
            i < BITSET_SIZE,
        ensures
            final(self).wf(),
            was_set == old(self).bits()[i as int],
            final(self).bits() == old(self).bits().update(i as int, false),
            final(self).count() == if was_set {
                count_after_unset(old(self).count())
            } else {
                old(self).count()
            },
            old(self).count_consistent() ==> final(self).count_consistent(),
    {
        proof {
            lemma_num_set_update(self.dense@, i as int, false);
        }
        let idx = i as usize;
        if self.dense[idx] {
            self.dense.set(idx, false);
            self.count = self.count.wrapping_sub(1);
            true
        } else {
            false
        }
    }

    /// Whether flag `i` is set.
    pub fn is_set(&self, i: u32) -> (r: bool)
        requires
            self.wf(),
            i < BITSET_SIZE,
        ensures
            r == self.bits()[i as int],
    {
        self.dense[i as usize]
    }

    /// Resets the counter to zero and stores `true` into every flag.
    pub fn clear(&mut self)
        requires
            old(self).wf(),
        ensures
            final(self).bits() == Seq::new(BITSET_SIZE as nat, |i: int| true),
            final(self).count() == 0,
    {
        self.count = 0;
        let mut i: usize = 0;
        while i < BITSET_SIZE
            invariant
                i <= BITSET_SIZE,
                self.dense@.len() == BITSET_SIZE,
                self.count == 0,
                forall|k: int| 0 <= k < i ==> self.dense@[k],
            decreases BITSET_SIZE - i,
        {
            self.dense.set(i, true);
            i = i + 1;
        }
        assert(self.dense@ =~= Seq::new(BITSET_SIZE as nat, |k: int| true));
    }

    /// The counter.
    pub fn get_count(&self) -> (r: usize)
        ensures
            r == self.count(),
    {
        self.count
    }
}

/// Setting a clear flag and then clearing it again gives back the bitset that
/// was there before, counter included.
pub proof fn lemma_set_then_unset_restores(before: Bitset, middle: Bitset, after: Bitset, i: u32)
    requires
        before.wf(),
        i < BITSET_SIZE,
        !before.bits()[i as int],
        middle.bits() == before.bits().update(i as int, true),
        middle.count() == count_after_set(before.count()),
        after.bits() == middle.bits().update(i as int, false),
        after.count() == count_after_unset(middle.count()),
    ensures
        after.bits() == before.bits(),
        after.count() == before.count(),
{
    assert(after.bits() =~= before.bits());
}

/// Setting a flag that is already set changes nothing.
pub proof fn lemma_set_idempotent(before: Bitset, after: Bitset, i: u32)
    requires
        before.wf(),
        i < BITSET_SIZE,
        before.bits()[i as int],
        after.bits() == before.bits().update(i as int, true),
        after.count() == before.count(),
    ensures
        after.bits() == before.bits(),
        after.count() == before.count(),
{
    assert(after.bits() =~= before.bits());
}

/// After `clear` every flag reads as set while the counter reads zero, so the
/// counter no longer agrees with the flags.
pub proof fn lemma_clear_breaks_count(after: Bitset)
    requires
        after.bits() == Seq::new(BITSET_SIZE as nat, |i: int| true),
        after.count() == 0,
    ensures
        after.all_set(),
        !after.count_consistent(),
{
    let s = after.bits();
    assert(s.drop_last() =~= Seq::new((BITSET_SIZE - 1) as nat, |i: int| true));
    lemma_all_true_count(s);
}

proof fn lemma_all_false_count(s: Seq<bool>)
    requires
        forall|i: int| 0 <= i < s.len() ==> !#[trigger] s[i],
    ensures
        num_set(s) == 0,
    decreases s.len(),
{
    if s.len() > 0 {
        lemma_all_false_count(s.drop_last());
    }
}

proof fn lemma_all_true_count(s: Seq<bool>)
    requires
        forall|i: int| 0 <= i < s.len() ==> #[trigger] s[i],
    ensures
        num_set(s) == s.len(),
    decreases s.len(),
{
    if s.len() > 0 {
        lemma_all_true_count(s.drop_last());
    }
}

} // verus!
