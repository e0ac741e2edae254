//! A standalone store of candidate sets, one per grid position.

use vstd::prelude::*;

verus! {

/// One candidate set per grid position, kept apart from the grid itself.
/// Each set is a membership vector indexed by candidate value; position
/// `0` of a vector is unused.
pub struct DomainSet {
    dimension: usize,
    squares: Vec<Vec<bool>>,
}

impl DomainSet {
    /// The range bound the candidate sets draw from.
    pub closed spec fn dim(self) -> int {
        self.dimension as int
    }

    /// How many positions have a candidate set here.
    pub closed spec fn count(self) -> int {
        self.squares@.len() as int
    }

    /// Candidate-set membership: `v` is a candidate at position `j`.
    pub closed spec fn has(self, j: int, v: int) -> bool {
        1 <= v < self.squares@[j]@.len() && self.squares@[j]@[v]
    }

    /// Add to every position's candidate set all values below the range
    /// bound, keeping whatever candidates the sets already held.
    pub fn reset_all(&mut self)
        ensures
            final(self).dim() == old(self).dim(),
            final(self).count() == old(self).count(),
            forall|j: int, v: int|
                0 <= j < old(self).count() ==> (#[trigger] final(self).has(j, v) <==> (old(
                    self,
                ).has(j, v) || 1 <= v < old(self).dim())),
    {
        let d = self.dimension;
        let n = self.squares.len();
        let mut j: usize = 0;
        while j < n
            invariant
                j <= n,
                d == self.dim(),
                d == old(self).dim(),
                n == self.count(),
                n == old(self).count(),
                forall|t: int| j <= t < n ==> self.squares@[t] == old(self).squares@[t],
                forall|t: int, v: int|
                    0 <= t < j ==> (#[trigger] self.has(t, v) <==> (old(self).has(t, v) || 1 <= v
                        < d)),
            decreases n - j,
        {
            let old_row_len = self.squares[j].len();
            let m = if old_row_len < d {
                d
            } else {
                old_row_len
            };
            let mut row: Vec<bool> = Vec::new();
            let mut v: usize = 0;
            while v < m
                invariant
                    v <= m,
                    j < n,
                    n == self.count(),
                    old_row_len == self.squares@[j as int]@.len(),
                    old_row_len <= m,
                    d <= m || d > old_row_len && d <= m,
                    d <= m,
                    row@.len() == v,
                    forall|w: int|
                        0 <= w < v ==> (#[trigger] row@[w] <==> ((w < old_row_len
                            && self.squares@[j as int]@[w]) || (1 <= w < d))),
                decreases m - v,
            {
                let was = if v < old_row_len {
                    self.squares[j][v]
                } else {
                    false
                };
                row.push(was || (1 <= v && v < d));
                v = v + 1;
            }
            let ghost prev = *self;
            self.squares.set(j, row);
            proof {
                assert forall|t: int, v: int|
                    0 <= t < j as int + 1 implies (#[trigger] self.has(t, v) <==> (old(self).has(
                        t,
                        v,
                    ) || 1 <= v < d)) by {
                    if t == j as int {
                        assert(self.squares@[t] == row);
                        assert(prev.squares@[t] == old(self).squares@[t]);
                    } else {
                        assert(self.squares@[t] == prev.squares@[t]);
                        assert(prev.has(t, v) <==> (old(self).has(t, v) || 1 <= v < d));
                    }
                }
                assert forall|t: int| j as int + 1 <= t < n implies self.squares@[t] == old(
                    self,
                ).squares@[t] by {
                    assert(self.squares@[t] == prev.squares@[t]);
                }
            }
            j = j + 1;
        }
    }
}

} // verus!
