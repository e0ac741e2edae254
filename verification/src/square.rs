//! A single grid position: a fixed value together with the set of candidate
//! values it could still take.

use vstd::pervasive::VecAdditionalExecFns;
use vstd::prelude::*;

verus! {

/// Number of `true` entries of `s` at positions `from` and beyond.
pub open spec fn count_from(s: Seq<bool>, from: int) -> int
    decreases s.len() - from,
{
    if from < 0 || from >= s.len() {
        0
    } else {
        (if s[from] {
            1int
        } else {
            0int
        }) + count_from(s, from + 1)
    }
}

pub proof fn lemma_count_from_nonneg(s: Seq<bool>, from: int)
    ensures
        0 <= count_from(s, from),
    decreases s.len() - from,
{
    if 0 <= from < s.len() {
        lemma_count_from_nonneg(s, from + 1);
    }
}

/// A count of zero means no `true` entry from `from` on, and conversely.
pub proof fn lemma_count_from_zero(s: Seq<bool>, from: int)
    requires
        0 <= from,
    ensures
        count_from(s, from) == 0 <==> (forall|k: int| from <= k < s.len() ==> !s[k]),
    decreases s.len() - from,
{
    lemma_count_from_nonneg(s, from);
    if 0 <= from < s.len() {
        lemma_count_from_zero(s, from + 1);
        lemma_count_from_nonneg(s, from + 1);
    }
}

/// Setting one entry to `false` lowers the count by one exactly when the
/// entry was `true` and is counted.
pub proof fn lemma_count_from_clear(s: Seq<bool>, from: int, k: int)
    requires
        0 <= from,
        0 <= k < s.len(),
    ensures
        count_from(s.update(k, false), from) == count_from(s, from) - (if from <= k && s[k] {
            1int
        } else {
            0int
        }),
    decreases s.len() - from,
{
    let t = s.update(k, false);
    if 0 <= from < s.len() {
        lemma_count_from_clear(s, from + 1, k);
    }
}

/// One grid position. `value` is `0` while the position is empty and the
/// chosen value once it is fixed. The candidate set is kept as a membership
/// vector indexed by candidate value; position `0` of the vector is unused,
/// since `0` is never a candidate.
pub struct Square {
    pub value: usize,
    pub domain: Vec<bool>,
}

impl Square {
    /// Candidate-set membership: `v` is a candidate value of this square.
    pub open spec fn dom_has(self, v: int) -> bool {
        1 <= v < self.domain@.len() && self.domain@[v]
    }

    /// Number of candidate values.
    pub open spec fn dom_size(self) -> int {
        count_from(self.domain@, 1)
    }

    /// The candidate set is empty exactly when its size is zero.
    pub proof fn lemma_dom_size_zero(self)
        ensures
            self.dom_size() == 0 <==> (forall|v: int| !self.dom_has(v)),
    {
        lemma_count_from_zero(self.domain@, 1);
        if forall|v: int| !self.dom_has(v) {
            assert forall|k: int| 1 <= k < self.domain@.len() implies !self.domain@[k] by {
                assert(!self.dom_has(k));
            }
        }
    }

    /// The candidate count is never negative.
    pub proof fn lemma_dom_size_nonneg(self)
        ensures
            0 <= self.dom_size(),
    {
        lemma_count_from_nonneg(self.domain@, 1);
    }

    pub fn new(value: usize) -> (r: Square)
        ensures
            r.value == value,
            forall|v: int| !r.dom_has(v),
            r.dom_size() == 0,
    {
        let domain = Vec::new();
        Square { value, domain }
    }

    /// Give the square the full candidate range `1..=range`, replacing
    /// whatever candidate set it had.
    pub fn reset(&mut self, range: usize)
        requires
            range < usize::MAX,
        ensures
            final(self).value == old(self).value,
            forall|v: int| final(self).dom_has(v) <==> 1 <= v <= range,
    {
        let mut domain: Vec<bool> = Vec::new();
        domain.push(false);
        let mut v: usize = 1;
        while v <= range
            invariant
                range < usize::MAX,
                1 <= v <= range + 1,
                domain@.len() == v,
                forall|k: int| 0 <= k < v ==> (domain@[k] <==> 1 <= k),
            decreases range + 1 - v,
        {
            domain.push(true);
            v = v + 1;
        }
        self.domain = domain;
    }

    /// A square is locally consistent when it is fixed to a value within
    /// `1..=max`, or still has at least one candidate.
    pub open spec fn locally_valid(self, max: int) -> bool {
        (1 <= self.value <= max) || (exists|v: int| self.dom_has(v))
    }

    pub fn is_valid(&self, max: usize) -> (r: bool)
        ensures
            r == self.locally_valid(max as int),
    {
        if self.value > 0 && self.value <= max {
            return true;
        }
        let len = self.domain.len();
        let mut v: usize = 1;
        while v < len
            invariant
                1 <= v,
                len == self.domain@.len(),
                forall|k: int| 1 <= k < v ==> !self.domain@[k],
            decreases len - v,
        {
            if self.domain[v] {
                assert(self.dom_has(v as int));
                return true;
            }
            v = v + 1;
        }
        assert(forall|w: int| !self.dom_has(w));
        false
    }

    /// Empty the candidate set.
    pub fn clear_domain(&mut self)
        ensures
            final(self).value == old(self).value,
            forall|v: int| !final(self).dom_has(v),
            final(self).dom_size() == 0,
    {
        self.domain = Vec::new();
    }

    /// Remove `value` from the candidate set, reporting whether it was there.
    pub fn remove_from_domain(&mut self, value: &usize) -> (r: bool)
        ensures
            r == old(self).dom_has(*value as int),
            final(self).value == old(self).value,
            forall|w: int| final(self).dom_has(w) <==> (old(self).dom_has(w) && w != *value as int),
            final(self).dom_size() == old(self).dom_size() - (if r {
                1int
            } else {
                0int
            }),
    {
        let v = *value;
        if v >= 1 && v < self.domain.len() && self.domain[v] {
            proof {
                lemma_count_from_clear(self.domain@, 1, v as int);
            }
            self.domain.set(v, false);
            true
        } else {
            false
        }
    }

    pub fn get_domain_size(&self) -> (r: usize)
        ensures
            r as int == self.dom_size(),
    {
        let len = self.domain.len();
        let mut count: usize = 0;
        let mut v: usize = 1;
        if len == 0 {
            return 0;
        }
        while v < len
            invariant
                1 <= v <= len,
                len == self.domain@.len(),
                count <= v - 1,
                count + count_from(self.domain@, v as int) == count_from(self.domain@, 1),
            decreases len - v,
        {
            if self.domain[v] {
                count = count + 1;
            }
            v = v + 1;
        }
        count
    }

    /// If the square still has candidates, fix it to the smallest one and
    /// clear the candidate set; otherwise leave it untouched.
    pub fn set_value_from_domain(&mut self)
        ensures
            (forall|w: int| !old(self).dom_has(w)) ==> *final(self) == *old(self),
            (exists|w: int| old(self).dom_has(w)) ==> {
                &&& old(self).dom_has(final(self).value as int)
                &&& forall|w: int| old(self).dom_has(w) ==> final(self).value as int <= w
                &&& forall|w: int| !final(self).dom_has(w)
                &&& final(self).dom_size() == 0
            },
    {
        let len = self.domain.len();
        let mut v: usize = 1;
        while v < len
            invariant
                1 <= v,
                *self == *old(self),
                len == self.domain@.len(),
                forall|k: int| 1 <= k < v ==> !self.domain@[k],
            decreases len - v,
        {
            if self.domain[v] {
                assert(old(self).dom_has(v as int));
                self.value = v;
                self.domain = Vec::new();
                return ;
            }
            v = v + 1;
        }
        assert(forall|w: int| !old(self).dom_has(w));
    }
}

impl Clone for Square {
    /// A clone carries the same value and the same candidate set.
    fn clone(&self) -> (r: Self)
        ensures
            r.value == self.value,
            forall|v: int| r.dom_has(v) <==> self.dom_has(v),
            r.dom_size() == self.dom_size(),
    {
        let domain = self.domain.clone();
        proof {
            assert(domain@ =~= self.domain@);
        }
        Square { value: self.value, domain }
    }
}

} // verus!
