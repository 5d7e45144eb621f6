//! The set of digits that are still possible for one cell.

use vstd::prelude::*;

verus! {

/// Number of `true` flags in a mask.
pub open spec fn flags_set(s: Seq<bool>) -> nat
    decreases s.len(),
{
    if s.len() == 0 {
        0
    } else {
        flags_set(s.drop_last()) + if s.last() {
            1nat
        } else {
            0nat
        }
    }
}

/// A digit of the puzzle: 1 to 9.
pub open spec fn is_digit(d: int) -> bool {
    1 <= d <= 9
}

pub proof fn lemma_flags_set_zero(s: Seq<bool>)
    ensures
        flags_set(s) == 0 <==> (forall|i: int| 0 <= i < s.len() ==> !s[i]),
    decreases s.len(),
{
    if s.len() > 0 {
        lemma_flags_set_zero(s.drop_last());
        if flags_set(s) == 0 {
            assert forall|i: int| 0 <= i < s.len() implies !s[i] by {
                if i < s.len() - 1 {
                    assert(s.drop_last()[i] == s[i]);
                }
            }
        }
        if forall|i: int| 0 <= i < s.len() ==> !s[i] {
            assert forall|i: int| 0 <= i < s.drop_last().len() implies !s.drop_last()[i] by {
                assert(s.drop_last()[i] == s[i]);
            }
        }
    }
}

/// A mask with one flag set is set at that flag alone.
pub proof fn lemma_flags_set_one(s: Seq<bool>, i: int, j: int)
    requires
        flags_set(s) == 1,
        0 <= i < s.len(),
        0 <= j < s.len(),
        s[i],
        s[j],
    ensures
        i == j,
    decreases s.len(),
{
    let t = s.drop_last();
    if i < s.len() - 1 && j < s.len() - 1 {
        assert(t[i] == s[i] && t[j] == s[j]);
        if !s.last() {
            lemma_flags_set_one(t, i, j);
        } else {
            lemma_flags_set_zero(t);
        }
    } else if i < s.len() - 1 {
        assert(t[i] == s[i]);
        lemma_flags_set_zero(t);
    } else if j < s.len() - 1 {
        assert(t[j] == s[j]);
        lemma_flags_set_zero(t);
    }
}

/// Clearing a flag lowers the count by one if the flag was set.
pub proof fn lemma_flags_set_update(s: Seq<bool>, i: int, b: bool)
    requires
        0 <= i < s.len(),
    ensures
        flags_set(s.update(i, b)) + (if s[i] {
            1int
        } else {
            0int
        }) == flags_set(s) + (if b {
            1int
        } else {
            0int
        }),
    decreases s.len(),
{
    let u = s.update(i, b);
    if i == s.len() - 1 {
        assert(u.drop_last() =~= s.drop_last());
    } else {
        assert(u.drop_last() =~= s.drop_last().update(i, b));
        lemma_flags_set_update(s.drop_last(), i, b);
    }
}

/// A mask in which every flag is set counts its length.
pub proof fn lemma_flags_set_all(s: Seq<bool>)
    requires
        forall|i: int| 0 <= i < s.len() ==> s[i],
    ensures
        flags_set(s) == s.len(),
    decreases s.len(),
{
    if s.len() > 0 {
        assert forall|i: int| 0 <= i < s.drop_last().len() implies s.drop_last()[i] by {
            assert(s.drop_last()[i] == s[i]);
        }
        lemma_flags_set_all(s.drop_last());
    }
}

/// A mask with exactly one flag set counts one.
pub proof fn lemma_flags_set_single(s: Seq<bool>, k: int)
    requires
        0 <= k < s.len(),
        forall|i: int| 0 <= i < s.len() ==> (s[i] <==> i == k),
    ensures
        flags_set(s) == 1,
{
    let z = s.update(k, false);
    assert forall|i: int| 0 <= i < z.len() implies !z[i] by {}
    lemma_flags_set_zero(z);
    lemma_flags_set_update(s, k, false);
}

/// The candidates of one cell: flag `d - 1` is set when digit `d` is still possible.
#[derive(Clone, Copy, Debug)]
pub struct SolvingCell(pub [bool; 9]);

impl SolvingCell {
    /// Whether digit `d` is a candidate.
    pub open spec fn has(&self, d: int) -> bool {
        self.0@[d - 1]
    }

    /// The number of candidates.
    pub open spec fn size(&self) -> nat {
        flags_set(self.0@)
    }

    /// A cell in which every digit is still possible.
    pub fn full() -> (r: SolvingCell)
        ensures
            forall|d: int| is_digit(d) ==> #[trigger] r.has(d),
            r.size() == 9,
    {
        let r = SolvingCell([true; 9]);
        proof {
            lemma_flags_set_all(r.0@);
        }
        r
    }

    /// A cell that holds `value` and nothing else.
    pub fn single(value: u8) -> (r: SolvingCell)
        requires
            is_digit(value as int),
        ensures
            forall|d: int| is_digit(d) ==> (#[trigger] r.has(d) <==> d == value),
            r.size() == 1,
    {
        let mut a = [false; 9];
        a[value as usize - 1] = true;
        let r = SolvingCell(a);
        proof {
            lemma_flags_set_single(r.0@, value - 1);
        }
        r
    }

    /// Removes `number` from the candidates.
    pub fn eliminate(&mut self, number: u8)
        requires
            is_digit(number as int),
        ensures
            final(self).0@ == old(self).0@.update(number - 1, false),
            forall|d: int| is_digit(d) ==> (#[trigger] final(self).has(d) <==> (old(self).has(d) && d != number)),
            final(self).size() + (if old(self).has(number as int) {
                1int
            } else {
                0int
            }) == old(self).size(),
    {
        self.0[number as usize - 1] = false;
        proof {
            lemma_flags_set_update(old(self).0@, number - 1, false);
        }
    }

    /// Keeps `number` as the only candidate; `number` must be one already.
    pub fn leave_only(&mut self, number: u8)
        requires
            is_digit(number as int),
            old(self).has(number as int),
        ensures
            forall|d: int| is_digit(d) ==> (#[trigger] final(self).has(d) <==> d == number),
            final(self).size() == 1,
    {
        self.0 = [false; 9];
        self.0[number as usize - 1] = true;
        proof {
            lemma_flags_set_single(self.0@, number - 1);
        }
    }

    /// Whether `number` is a candidate.
    pub fn contains(&self, number: u8) -> (r: bool)
        requires
            is_digit(number as int),
        ensures
            r == self.has(number as int),
    {
        self.0[number as usize - 1]
    }

    /// The number of candidates.
    pub fn count(&self) -> (r: usize)
        ensures
            r == self.size(),
            r <= 9,
    {
        let mut c: usize = 0;
        let mut i: usize = 0;
        while i < 9
            invariant
                i <= 9,
                c == flags_set(self.0@.subrange(0, i as int)),
                c <= i,
            decreases 9 - i,
        {
            proof {
                let s = self.0@.subrange(0, i as int + 1);
                assert(s.drop_last() =~= self.0@.subrange(0, i as int));
            }
            if self.0[i] {
                c = c + 1;
            }
            i = i + 1;
        }
        assert(self.0@.subrange(0, 9) =~= self.0@);
        c
    }

    /// Whether no candidate is left.
    pub fn is_invalid(&self) -> (r: bool)
        ensures
            r == (self.size() == 0),
            r <==> (forall|d: int| is_digit(d) ==> !#[trigger] self.has(d)),
    {
        proof {
            lemma_flags_set_zero(self.0@);
            if forall|d: int| is_digit(d) ==> !#[trigger] self.has(d) {
                assert forall|i: int| 0 <= i < 9 implies !self.0@[i] by {
                    assert(!self.has(i + 1));
                }
            }
        }
        self.count() == 0
    }

    /// Whether exactly one candidate is left.
    pub fn is_definitive(&self) -> (r: bool)
        ensures
            r == (self.size() == 1),
    {
        self.count() == 1
    }

    /// The only candidate, when exactly one is left.
    pub fn definitive_value(&self) -> (r: Option<u8>)
        ensures
            r is Some <==> self.size() == 1,
            r matches Some(v) ==> is_digit(v as int) && self.has(v as int),
            r matches Some(v) ==> forall|d: int| is_digit(d) ==> (#[trigger] self.has(d) <==> d == v),
    {
        if self.is_definitive() {
            let mut i: usize = 0;
            while i < 9
                invariant
                    i <= 9,
                    self.size() == 1,
                    forall|k: int| 0 <= k < i ==> !self.0@[k],
                decreases 9 - i,
            {
                if self.0[i] {
                    proof {
                        assert forall|d: int| is_digit(d) implies (#[trigger] self.has(d) <==> d == i + 1) by {
                            if self.has(d) {
                                lemma_flags_set_one(self.0@, d - 1, i as int);
                            }
                        }
                    }
                    return Some(i as u8 + 1);
                }
                i = i + 1;
            }
            proof {
                lemma_flags_set_zero(self.0@);
            }
            None
        } else {
            None
        }
    }
}

impl Default for SolvingCell {
    /// A cell in which every digit is still possible.
    fn default() -> (r: SolvingCell)
        ensures
            forall|d: int| is_digit(d) ==> #[trigger] r.has(d),
            r.size() == 9,
    {
        SolvingCell::full()
    }
}

} // verus!
