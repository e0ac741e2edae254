//! The puzzle grid: addressing, validity checking, candidate propagation and
//! the backtracking search.

use crate::square::Square;
use crate::text;
use vstd::arithmetic::div_mod::{
    lemma_div_by_multiple, lemma_div_pos_is_pos, lemma_fundamental_div_mod,
    lemma_mod_division_less_than_divisor, lemma_multiply_divide_lt,
};
use vstd::pervasive::cloned;
use vstd::pervasive::VecAdditionalExecFns;
use vstd::prelude::*;

verus! {

/// `g` is the side length of the blocks of a grid of dimension `d`.
pub open spec fn is_group_dim(d: int, g: int) -> bool {
    0 <= g && g * g == d
}

/// The block side length of a grid of dimension `d`.
pub open spec fn group_dim(d: int) -> int {
    choose|g: int| is_group_dim(d, g)
}

pub proof fn lemma_group_dim_unique(d: int, g: int)
    requires
        is_group_dim(d, g),
    ensures
        group_dim(d) == g,
{
    let g0 = group_dim(d);
    assert(is_group_dim(d, g0));
    assert(g0 == g) by (nonlinear_arith)
        requires
            0 <= g,
            0 <= g0,
            g * g == g0 * g0,
    ;
}

/// Two entries of `s` are equal.
pub open spec fn has_dup(s: Seq<int>) -> bool {
    exists|i: int, j: int| 0 <= i < j < s.len() && s[i] == s[j]
}

/// The non-zero entries of `s`, in order.
pub open spec fn nonzero_vals(s: Seq<int>) -> Seq<int>
    decreases s.len(),
{
    if s.len() == 0 {
        Seq::empty()
    } else if s.last() != 0 {
        nonzero_vals(s.drop_last()).push(s.last())
    } else {
        nonzero_vals(s.drop_last())
    }
}

/// `s` holds the value `v`.
pub open spec fn seq_has(s: Seq<int>, v: int) -> bool {
    exists|i: int| 0 <= i < s.len() && s[i] == v
}

/// A value occurs among the non-zero entries exactly when it is a non-zero
/// entry.
pub proof fn lemma_nonzero_vals_member(s: Seq<int>, v: int)
    ensures
        nonzero_vals(s).contains(v) <==> (v != 0 && seq_has(s, v)),
    decreases s.len(),
{
    if s.len() > 0 {
        let s0 = s.drop_last();
        lemma_nonzero_vals_member(s0, v);
        if nonzero_vals(s).contains(v) {
            if s.last() != 0 {
                let t = nonzero_vals(s0).push(s.last());
                let j = choose|j: int| 0 <= j < t.len() && t[j] == v;
                if j == t.len() - 1 {
                    assert(s[s.len() - 1] == v);
                } else {
                    assert(nonzero_vals(s0)[j] == v);
                    assert(nonzero_vals(s0).contains(v));
                    let i = choose|i: int| 0 <= i < s0.len() && s0[i] == v;
                    assert(s[i] == v);
                }
            } else {
                let i = choose|i: int| 0 <= i < s0.len() && s0[i] == v;
                assert(s[i] == v);
            }
        }
        if v != 0 && seq_has(s, v) {
            let i = choose|i: int| 0 <= i < s.len() && s[i] == v;
            if i == s.len() - 1 {
                assert(s.last() == v);
                let t = nonzero_vals(s0).push(s.last());
                assert(t[t.len() - 1] == v);
                assert(t.contains(v));
            } else {
                assert(s0[i] == v);
                assert(nonzero_vals(s0).contains(v));
                let j = choose|j: int| 0 <= j < nonzero_vals(s0).len() && nonzero_vals(s0)[j] == v;
                if s.last() != 0 {
                    let t = nonzero_vals(s0).push(s.last());
                    assert(t[j] == v);
                    assert(t.contains(v));
                }
            }
        }
    }
}

/// Two equal non-zero entries of `s` show up as a duplicate among its
/// non-zero values.
pub proof fn lemma_nonzero_vals_dup(s: Seq<int>, i: int, j: int)
    requires
        0 <= i < j < s.len(),
        s[i] == s[j],
        s[i] != 0,
    ensures
        has_dup(nonzero_vals(s)),
    decreases s.len(),
{
    if j == s.len() - 1 {
        assert(s.last() == s[j]);
        let front = nonzero_vals(s.drop_last());
        lemma_nonzero_vals_member(s.drop_last(), s[i]);
        assert(s.drop_last()[i] == s[i]);
        assert(front.contains(s[i]));
        let a = choose|a: int| 0 <= a < front.len() && front[a] == s[i];
        let t = front.push(s.last());
        assert(t[a] == s[i] && t[t.len() - 1] == s[j]);
        assert(has_dup(t));
    } else {
        lemma_nonzero_vals_dup(s.drop_last(), i, j);
        let front = nonzero_vals(s.drop_last());
        if s.last() != 0 {
            let t = front.push(s.last());
            let (a, b) = choose|a: int, b: int| 0 <= a < b < front.len() && front[a] == front[b];
            assert(t[a] == front[a] && t[b] == front[b]);
            assert(has_dup(t));
        }
    }
}

/// Largest `r` with `r * r <= n`.
fn int_sqrt(n: usize) -> (r: usize)
    ensures
        r * r <= n,
        n < (r + 1) * (r + 1),
{
    if n == 0 {
        return 0;
    }
    let mut g: usize = 0;
    loop
        invariant
            g < n,
            g * g <= n,
        ensures
            g * g <= n < (g + 1) * (g + 1),
        decreases n - g,
    {
        let q = n / (g + 1);
        proof {
            lemma_fundamental_div_mod(n as int, g as int + 1);
        }
        if g + 1 <= q {
            assert((g + 1) * (g + 1) <= n) by (nonlinear_arith)
                requires
                    g + 1 <= q,
                    n >= q * (g + 1),
            ;
            assert(g + 1 < n || (g + 1) * (g + 1) == n && g + 1 == n) by (nonlinear_arith)
                requires
                    (g + 1) * (g + 1) <= n,
                    g >= 0,
            ;
            if g + 1 == n {
                // Then n == 1 and the search is done.
                assert(n == 1) by (nonlinear_arith)
                    requires
                        (g + 1) * (g + 1) <= n,
                        g + 1 == n,
                        n >= 1,
                ;
                return 1;
            }
            g = g + 1;
        } else {
            assert(n < (g + 1) * (g + 1)) by (nonlinear_arith)
                requires
                    q < g + 1,
                    0 <= n - q * (g + 1) < g + 1,
            ;
            break ;
        }
    }
    g
}

/// A puzzle grid: `dimension` is the side length `N`, and `squares` holds
/// the `N * N` positions in row-major order.
pub struct Puzzle {
    dimension: usize,
    squares: Vec<Square>,
}

impl Puzzle {
    /// The side length of the grid.
    pub closed spec fn dim(self) -> int {
        self.dimension as int
    }

    /// The number of positions the grid holds.
    pub closed spec fn len(self) -> int {
        self.squares@.len() as int
    }

    /// The square at position `i` (row-major).
    pub closed spec fn sq(self, i: int) -> Square {
        self.squares@[i]
    }

    /// The value at position `i`; `0` means empty.
    pub closed spec fn val(self, i: int) -> int {
        self.squares@[i].value as int
    }

    /// The grid values in row-major order.
    pub open spec fn vals(self) -> Seq<int> {
        Seq::new(self.len() as nat, |i: int| self.val(i))
    }

    /// A well-formed grid: the side length is a perfect square, and the
    /// grid holds exactly side-length-squared positions.
    pub open spec fn wf(self) -> bool {
        &&& self.len() == self.dim() * self.dim()
        &&& exists|g: int| is_group_dim(self.dim(), g)
    }

    /// The values of column `x`, top to bottom.
    pub open spec fn col_cells(self, x: int) -> Seq<int> {
        Seq::new(self.dim() as nat, |k: int| self.val(x + k * self.dim()))
    }

    /// The values of row `y`, left to right.
    pub open spec fn row_cells(self, y: int) -> Seq<int> {
        Seq::new(self.dim() as nat, |k: int| self.val(y * self.dim() + k))
    }

    /// The values of the block containing position `(x, y)`, row-major.
    pub open spec fn grp_cells(self, x: int, y: int) -> Seq<int> {
        let d = self.dim();
        let g = group_dim(d);
        Seq::new(d as nat, |k: int| self.val((x / g) * g + k % g + ((y / g) * g + k / g) * d))
    }

    /// Every square is locally consistent: fixed within range, or still
    /// holding a candidate.
    pub open spec fn local_ok(self) -> bool {
        forall|i: int| 0 <= i < self.len() ==> (#[trigger] self.sq(i)).locally_valid(self.dim())
    }

    /// No row, column or block holds the same non-zero value twice.
    pub open spec fn units_ok(self) -> bool {
        let g = group_dim(self.dim());
        forall|c: int|
            0 <= c < self.dim() ==> {
                &&& !has_dup(nonzero_vals(#[trigger] self.col_cells(c)))
                &&& !has_dup(nonzero_vals(self.row_cells(c)))
                &&& !has_dup(nonzero_vals(self.grp_cells((c % g) * g, (c / g) * g)))
            }
    }

    /// A valid grid: well-formed, every square locally consistent, and no
    /// duplicate value in any row, column or block.
    pub open spec fn valid(self) -> bool {
        self.wf() && self.local_ok() && self.units_ok()
    }

    /// Every position is filled.
    pub open spec fn filled(self) -> bool {
        forall|i: int| 0 <= i < self.len() ==> #[trigger] self.val(i) != 0
    }

    /// Check that the grid is well-formed: as many positions as the side
    /// length squared, and a side length that is itself a perfect square.
    fn check_wf(&self) -> (r: bool)
        ensures
            r == self.wf(),
    {
        let d = self.dimension;
        let n = self.squares.len();
        let size_ok = if d == 0 {
            n == 0
        } else {
            proof {
                lemma_fundamental_div_mod(n as int, d as int);
                if n == self.dim() * self.dim() {
                    lemma_div_by_multiple(d as int, d as int);
                    lemma_mod_multiples_basic_local(n as int, d as int);
                }
            }
            n / d == d && n % d == 0
        };
        if !size_ok {
            return false;
        }
        let g = int_sqrt(d);
        if g * g == d {
            proof {
                assert(is_group_dim(self.dim(), g as int));
            }
            true
        } else {
            proof {
                if exists|g0: int| is_group_dim(self.dim(), g0) {
                    let g0 = choose|g0: int| is_group_dim(self.dim(), g0);
                    assert(g0 == g) by (nonlinear_arith)
                        requires
                            0 <= g0,
                            0 <= g,
                            g0 * g0 == d,
                            g * g <= d,
                            d < (g + 1) * (g + 1),
                    ;
                }
            }
            false
        }
    }

    /// The non-zero values of column `x`, top to bottom.
    pub fn get_column(&self, x: usize) -> (r: Vec<usize>)
        requires
            self.wf(),
            x < self.dim(),
        ensures
            r@.map_values(|v: usize| v as int) == nonzero_vals(self.col_cells(x as int)),
    {
        let d = self.dimension;
        let n = self.squares.len();
        let mut r: Vec<usize> = Vec::new();
        let mut k: usize = 0;
        while k < d
            invariant
                self.wf(),
                k <= d,
                d == self.dim(),
                n == self.len(),
                x < d,
                r@.map_values(|v: usize| v as int) == nonzero_vals(
                    self.col_cells(x as int).take(k as int),
                ),
            decreases d - k,
        {
            proof {
                assert(k * d + d <= d * d) by (nonlinear_arith)
                    requires
                        0 <= k < d,
                ;
                assert(x as int + (k as int) * (d as int) < n);
                assert(self.col_cells(x as int).take(k as int + 1).drop_last() =~= self.col_cells(
                    x as int,
                ).take(k as int));
                assert(self.col_cells(x as int).take(k as int + 1).last() == self.val(
                    x as int + k as int * d as int,
                ));
            }
            let idx = x + k * d;
            let v = self.squares[idx].value;
            if v != 0 {
                r.push(v);
                proof {
                    assert(r@.map_values(|v: usize| v as int) =~= r@.drop_last().map_values(
                        |v: usize| v as int,
                    ).push(v as int));
                }
            }
            k = k + 1;
        }
        proof {
            assert(self.col_cells(x as int).take(d as int) =~= self.col_cells(x as int));
        }
        r
    }

    /// The non-zero values of row `y`, left to right.
    pub fn get_row(&self, y: usize) -> (r: Vec<usize>)
        requires
            self.wf(),
            y < self.dim(),
        ensures
            r@.map_values(|v: usize| v as int) == nonzero_vals(self.row_cells(y as int)),
    {
        let d = self.dimension;
        let n = self.squares.len();
        let mut r: Vec<usize> = Vec::new();
        let mut k: usize = 0;
        while k < d
            invariant
                self.wf(),
                k <= d,
                d == self.dim(),
                n == self.len(),
                y < d,
                r@.map_values(|v: usize| v as int) == nonzero_vals(
                    self.row_cells(y as int).take(k as int),
                ),
            decreases d - k,
        {
            proof {
                assert(y * d + d <= d * d) by (nonlinear_arith)
                    requires
                        0 <= y < d,
                ;
                assert((y as int) * (d as int) + k < n);
                assert(self.row_cells(y as int).take(k as int + 1).drop_last() =~= self.row_cells(
                    y as int,
                ).take(k as int));
                assert(self.row_cells(y as int).take(k as int + 1).last() == self.val(
                    y as int * d as int + k as int,
                ));
            }
            let idx = y * d + k;
            let v = self.squares[idx].value;
            if v != 0 {
                r.push(v);
                proof {
                    assert(r@.map_values(|v: usize| v as int) =~= r@.drop_last().map_values(
                        |v: usize| v as int,
                    ).push(v as int));
                }
            }
            k = k + 1;
        }
        proof {
            assert(self.row_cells(y as int).take(d as int) =~= self.row_cells(y as int));
        }
        r
    }

    /// The non-zero values of the block containing position `(x, y)`,
    /// row-major.
    pub fn get_group(&self, x: usize, y: usize) -> (r: Vec<usize>)
        requires
            self.wf(),
            x < self.dim(),
            y < self.dim(),
        ensures
            r@.map_values(|v: usize| v as int) == nonzero_vals(self.grp_cells(x as int, y as int)),
    {
        let d = self.dimension;
        let g = int_sqrt(d);
        proof {
            let g0 = choose|g0: int| is_group_dim(self.dim(), g0);
            assert(g0 == g) by (nonlinear_arith)
                requires
                    0 <= g0,
                    0 <= g,
                    g0 * g0 == d,
                    g * g <= d,
                    d < (g + 1) * (g + 1),
            ;
            lemma_group_dim_unique(d as int, g as int);
        }
        let mut r: Vec<usize> = Vec::new();
        let mut k: usize = 0;
        if d == 0 {
            proof {
                assert(self.grp_cells(x as int, y as int) =~= Seq::<int>::empty());
            }
            return r;
        }
        assert(g >= 1) by (nonlinear_arith)
            requires
                g * g == d,
                d >= 1,
                g >= 0,
        ;
        proof {
            lemma_multiply_divide_lt(x as int, g as int, g as int);
            lemma_multiply_divide_lt(y as int, g as int, g as int);
            lemma_div_pos_is_pos(x as int, g as int);
            lemma_div_pos_is_pos(y as int, g as int);
            assert(((x as int) / (g as int)) * (g as int) + g <= d && ((y as int) / (g as int)) * (
            g as int) + g <= d) by (nonlinear_arith)
                requires
                    (x as int) / (g as int) < g,
                    (y as int) / (g as int) < g,
                    0 <= (x as int) / (g as int),
                    0 <= (y as int) / (g as int),
                    g * g == d,
                    g >= 1,
            ;
        }
        let ox = (x / g) * g;
        let oy = (y / g) * g;
        let n = self.squares.len();
        while k < d
            invariant
                self.wf(),
                k <= d,
                d == self.dim(),
                n == self.len(),
                1 <= g,
                g as int == group_dim(d as int),
                g * g == d,
                ox == ((x as int) / (g as int)) * g as int,
                oy == ((y as int) / (g as int)) * g as int,
                ox + g <= d,
                oy + g <= d,
                r@.map_values(|v: usize| v as int) == nonzero_vals(
                    self.grp_cells(x as int, y as int).take(k as int),
                ),
            decreases d - k,
        {
            proof {
                lemma_mod_division_less_than_divisor(k as int, g as int);
                lemma_multiply_divide_lt(k as int, g as int, g as int);
                lemma_div_pos_is_pos(k as int, g as int);
                assert((oy + (k as int) / (g as int)) * d < d * d && (ox + (k as int) % (g as int)) + (oy
                    + (k as int) / (g as int)) * d < d * d) by (nonlinear_arith)
                    requires
                        0 <= (k as int) % (g as int) < g,
                        0 <= (k as int) / (g as int) < g,
                        ox + g <= d,
                        oy + g <= d,
                        g >= 1,
                        d == g * g,
                ;
                assert((ox as int + (k as int) % (g as int)) + (oy as int + (k as int) / (
                g as int)) * d < n);
                assert(self.grp_cells(x as int, y as int).take(k as int + 1).drop_last()
                    =~= self.grp_cells(x as int, y as int).take(k as int));
            }
            let idx = (ox + k % g) + (oy + k / g) * d;
            proof {
                assert(self.grp_cells(x as int, y as int).take(k as int + 1).last() == self.val(
                    idx as int,
                ));
            }
            let v = self.squares[idx].value;
            if v != 0 {
                r.push(v);
                proof {
                    assert(r@.map_values(|v: usize| v as int) =~= r@.drop_last().map_values(
                        |v: usize| v as int,
                    ).push(v as int));
                }
            }
            k = k + 1;
        }
        proof {
            assert(self.grp_cells(x as int, y as int).take(d as int) =~= self.grp_cells(
                x as int,
                y as int,
            ));
        }
        r
    }

    /// Whether every position of the grid is filled.
    pub fn all_filled(&self) -> (r: bool)
        ensures
            r == self.filled(),
    {
        let n = self.squares.len();
        let mut i: usize = 0;
        while i < n
            invariant
                i <= n,
                n == self.len(),
                forall|j: int| 0 <= j < i ==> #[trigger] self.val(j) != 0,
            decreases n - i,
        {
            if self.squares[i].value == 0 {
                assert(self.val(i as int) == 0);
                return false;
            }
            i = i + 1;
        }
        true
    }

    /// Whether the grid is valid: well-formed, every square locally
    /// consistent, and no duplicate non-zero value in any row, column or
    /// block.
    pub fn is_valid(&self) -> (r: bool)
        ensures
            r == self.valid(),
    {
        if !self.check_wf() {
            return false;
        }
        let d = self.dimension;
        let n = self.squares.len();
        let mut i: usize = 0;
        while i < n
            invariant
                i <= n,
                n == self.len(),
                d == self.dim(),
                forall|j: int| 0 <= j < i ==> (#[trigger] self.sq(j)).locally_valid(d as int),
            decreases n - i,
        {
            if !self.squares[i].is_valid(d) {
                assert(!self.sq(i as int).locally_valid(d as int));
                return false;
            }
            i = i + 1;
        }
        let g = int_sqrt(d);
        proof {
            let g0 = choose|g0: int| is_group_dim(self.dim(), g0);
            assert(g0 == g) by (nonlinear_arith)
                requires
                    0 <= g0,
                    0 <= g,
                    g0 * g0 == d,
                    g * g <= d,
                    d < (g + 1) * (g + 1),
            ;
            lemma_group_dim_unique(d as int, g as int);
        }
        let mut c: usize = 0;
        while c < d
            invariant
                c <= d,
                d == self.dim(),
                self.wf(),
                g as int == group_dim(d as int),
                g * g == d,
                1 <= g || d == 0,
                forall|b: int|
                    0 <= b < c ==> {
                        &&& !has_dup(nonzero_vals(#[trigger] self.col_cells(b)))
                        &&& !has_dup(nonzero_vals(self.row_cells(b)))
                        &&& !has_dup(
                            nonzero_vals(
                                self.grp_cells(
                                    (b % g as int) * g as int,
                                    (b / g as int) * g as int,
                                ),
                            ),
                        )
                    },
            decreases d - c,
        {
            let column = self.get_column(c);
            if has_duplicate(&column) {
                return false;
            }
            let row = self.get_row(c);
            if has_duplicate(&row) {
                return false;
            }
            proof {
                lemma_mod_division_less_than_divisor(c as int, g as int);
                lemma_multiply_divide_lt(c as int, g as int, g as int);
                lemma_div_pos_is_pos(c as int, g as int);
                assert(((c as int) % (g as int)) * g as int + g <= d && ((c as int) / (g as int))
                    * g as int + g <= d) by (nonlinear_arith)
                    requires
                        0 <= (c as int) % (g as int) < g,
                        0 <= (c as int) / (g as int) < g,
                        g >= 1,
                        d == g * g,
                ;
            }
            let x = (c % g) * g;
            let y = (c / g) * g;
            let group = self.get_group(x, y);
            if has_duplicate(&group) {
                return false;
            }
            proof {
                lemma_div_by_multiple((c as int) % (g as int), g as int);
                lemma_div_by_multiple((c as int) / (g as int), g as int);
                assert(self.grp_cells(x as int, y as int) =~= self.grp_cells(
                    ((c as int) % (g as int)) * g as int,
                    ((c as int) / (g as int)) * g as int,
                ));
                assert forall|b: int| 0 <= b < c as int + 1 implies {
                    &&& !has_dup(nonzero_vals(#[trigger] self.col_cells(b)))
                    &&& !has_dup(nonzero_vals(self.row_cells(b)))
                    &&& !has_dup(
                        nonzero_vals(
                            self.grp_cells((b % g as int) * g as int, (b / g as int) * g as int),
                        ),
                    )
                } by {
                    if b == c as int {
                        assert(!has_dup(nonzero_vals(self.col_cells(b))));
                        assert(!has_dup(nonzero_vals(self.row_cells(b))));
                        assert(!has_dup(nonzero_vals(self.grp_cells(
                            (b % g as int) * g as int,
                            (b / g as int) * g as int,
                        ))));
                    }
                }
            }
            c = c + 1;
        }
        true
    }

    /// Whether the grid is solved: valid and completely filled.
    pub fn is_solved(&self) -> (r: bool)
        ensures
            r == (self.valid() && self.filled()),
    {
        self.is_valid() && self.all_filled()
    }

    /// Read a puzzle from text: whitespace-separated numbers, `0` for an
    /// empty position, with the side length taken as the integer square
    /// root of the number of values read. Tokens that are not plain
    /// numbers are skipped.
    pub fn read_from_string(source: &str) -> (p: Puzzle)
        ensures
            p.len() == text::parse_values(source@).len(),
            forall|i: int| 0 <= i < p.len() ==> p.val(i) == text::parse_values(source@)[i],
            p.dim() * p.dim() <= p.len() < (p.dim() + 1) * (p.dim() + 1),
            forall|i: int, v: int|
                0 <= i < p.len() ==> (#[trigger] p.sq(i).dom_has(v) <==> 1 <= v <= p.dim()),
    {
        let tokens = text::parse_tokens(source);
        let n = tokens.len();
        let mut squares: Vec<Square> = Vec::new();
        let mut i: usize = 0;
        while i < n
            invariant
                i <= n,
                n == tokens@.len(),
                squares@.len() == i,
                forall|j: int|
                    0 <= j < i ==> (#[trigger] squares@[j]).value == tokens@[j] && (forall|v: int|
                        !squares@[j].dom_has(v)),
            decreases n - i,
        {
            squares.push(Square::new(tokens[i]));
            i = i + 1;
        }
        let dimension = int_sqrt(n);
        proof {
            assert(dimension < usize::MAX) by (nonlinear_arith)
                requires
                    dimension * dimension <= n <= usize::MAX,
                    usize::MAX >= 3,
                    dimension >= 0,
            ;
            assert(forall|j: int|
                0 <= j < n ==> tokens@.map_values(|v: usize| v as int)[j] == (
                #[trigger] tokens@[j]) as int);
        }
        let mut p = Puzzle { dimension, squares };
        p.reset_domains();
        p
    }

    /// Give every square the full candidate range `1..=N`.
    pub fn reset_domains(&mut self)
        requires
            old(self).dim() < usize::MAX,
        ensures
            final(self).dim() == old(self).dim(),
            final(self).len() == old(self).len(),
            forall|i: int| 0 <= i < old(self).len() ==> final(self).val(i) == old(self).val(i),
            forall|i: int, v: int|
                0 <= i < old(self).len() ==> (#[trigger] final(self).sq(i).dom_has(v) <==> 1 <= v
                    <= old(self).dim()),
    {
        let n = self.squares.len();
        let d = self.dimension;
        let mut i: usize = 0;
        while i < n
            invariant
                i <= n,
                d == self.dim(),
                d == old(self).dim(),
                d < usize::MAX,
                n == self.len(),
                n == old(self).len(),
                forall|j: int| i <= j < n ==> self.sq(j) == old(self).sq(j),
                forall|j: int| 0 <= j < i ==> #[trigger] self.val(j) == old(self).val(j),
                forall|j: int, v: int|
                    0 <= j < i ==> (#[trigger] self.sq(j).dom_has(v) <==> 1 <= v <= d),
            decreases n - i,
        {
            let ghost prev = *self;
            let mut sq = self.squares[i].clone();
            sq.reset(d);
            self.squares.set(i, sq);
            proof {
                assert(prev.sq(i as int) == old(self).sq(i as int));
                assert forall|j: int| i as int + 1 <= j < n implies self.sq(j) == old(self).sq(
                    j,
                ) by {
                    assert(prev.sq(j) == old(self).sq(j));
                    assert(self.squares@[j] == prev.squares@[j]);
                }
                assert forall|j: int| 0 <= j < i as int + 1 implies #[trigger] self.val(j) == old(
                    self,
                ).val(j) by {
                    if j == i as int {
                        assert(self.squares@[j] == sq);
                    } else {
                        assert(prev.val(j) == old(self).val(j));
                        assert(self.squares@[j] == prev.squares@[j]);
                    }
                }
                assert forall|j: int, v: int|
                    0 <= j < i as int + 1 implies (#[trigger] self.sq(j).dom_has(v) <==> 1 <= v
                        <= d) by {
                    if j == i as int {
                        assert(self.squares@[j] == sq);
                    } else {
                        assert(prev.sq(j).dom_has(v) <==> 1 <= v <= d);
                        assert(self.squares@[j] == prev.squares@[j]);
                    }
                }
            }
            i = i + 1;
        }
    }

    /// Recompute the candidate set of position `counter`: a fixed square
    /// loses all candidates, an empty square keeps exactly the candidates
    /// that no peer in its row, column or block already holds.
    fn refresh_cell(&mut self, counter: usize)
        requires
            old(self).wf(),
            counter < old(self).len(),
        ensures
            final(self).dim() == old(self).dim(),
            final(self).len() == old(self).len(),
            final(self).wf(),
            forall|j: int|
                0 <= j < old(self).len() && j != counter ==> #[trigger] final(self).sq(j) == old(
                    self,
                ).sq(j),
            forall|j: int|
                0 <= j < old(self).len() ==> #[trigger] final(self).val(j) == old(self).val(j),
            old(self).val(counter as int) != 0 ==> (forall|v: int|
                !final(self).sq(counter as int).dom_has(v)),
            old(self).val(counter as int) == 0 ==> (forall|v: int|
                #[trigger] final(self).sq(counter as int).dom_has(v) <==> (old(self).sq(
                    counter as int,
                ).dom_has(v) && !peer_val(*old(self), counter as int, v))),
            final(self).sq(counter as int).dom_size() <= old(self).sq(counter as int).dom_size(),
    {
        let n = self.squares.len();
        let d = self.dimension;
        proof {
            assert(d >= 1) by (nonlinear_arith)
                requires
                    d * d == n,
                    n > counter >= 0,
            ;
            lemma_multiply_divide_lt(counter as int, d as int, d as int);
            lemma_div_pos_is_pos(counter as int, d as int);
            lemma_mod_division_less_than_divisor(counter as int, d as int);
            old(self).sq(counter as int).lemma_dom_size_nonneg();
        }
        if self.squares[counter].value != 0 {
            let mut sq = self.squares[counter].clone();
            sq.clear_domain();
            self.squares.set(counter, sq);
            proof {
                assert(self.squares@[counter as int] == sq);
            }
        } else {
            let x = counter % d;
            let y = counter / d;
            let column = self.get_column(x);
            let row = self.get_row(y);
            let group = self.get_group(x, y);
            let mut sq = self.squares[counter].clone();
            remove_all(&mut sq, &column);
            remove_all(&mut sq, &row);
            remove_all(&mut sq, &group);
            self.squares.set(counter, sq);
            proof {
                assert(self.squares@[counter as int] == sq);
                assert forall|v: int|
                    #[trigger] self.sq(counter as int).dom_has(v) <==> (old(self).sq(
                        counter as int,
                    ).dom_has(v) && !peer_val(*old(self), counter as int, v)) by {
                    lemma_nonzero_vals_member(old(self).col_cells(x as int), v);
                    lemma_nonzero_vals_member(old(self).row_cells(y as int), v);
                    lemma_nonzero_vals_member(old(self).grp_cells(x as int, y as int), v);
                    assert(sq.dom_has(v) <==> (old(self).sq(counter as int).dom_has(v)
                        && !column@.map_values(|u: usize| u as int).contains(v)
                        && !row@.map_values(|u: usize| u as int).contains(v)
                        && !group@.map_values(|u: usize| u as int).contains(v)));
                }
            }
        }
    }

    /// Remove from the candidate set of every empty square the values its
    /// row, column and block already hold, and clear the candidate set of
    /// every fixed square.
    pub fn update_domains(&mut self)
        requires
            old(self).wf(),
        ensures
            propagated(*old(self), *final(self)),
            final(self).wf(),
    {
        let n = self.squares.len();
        let mut counter: usize = 0;
        while counter < n
            invariant
                counter <= n,
                n == self.len(),
                n == old(self).len(),
                self.dim() == old(self).dim(),
                self.wf(),
                old(self).wf(),
                forall|j: int| counter <= j < n ==> #[trigger] self.sq(j) == old(self).sq(j),
                forall|j: int| 0 <= j < n ==> #[trigger] self.val(j) == old(self).val(j),
                forall|j: int|
                    0 <= j < counter && old(self).val(j) != 0 ==> (forall|v: int|
                        !#[trigger] self.sq(j).dom_has(v)),
                forall|j: int, v: int|
                    0 <= j < counter && old(self).val(j) == 0 ==> (#[trigger] self.sq(j).dom_has(v) <==> old(self).sq(j).dom_has(v) && !peer_val(*old(self), j, v)),
                forall|j: int|
                    0 <= j < counter ==> (#[trigger] self.sq(j)).dom_size() <= old(self).sq(
                        j,
                    ).dom_size(),
            decreases n - counter,
        {
            let ghost prev = *self;
            proof {
                assert(prev.sq(counter as int) == old(self).sq(counter as int));
                lemma_same_vals_same_units_all(*old(self), prev);
            }
            self.refresh_cell(counter);
            proof {
                assert forall|j: int|
                    0 <= j < counter as int + 1 && old(self).val(j) != 0 implies (forall|v: int|
                        !#[trigger] self.sq(j).dom_has(v)) by {
                    if j == counter as int {
                        assert(prev.val(j) == old(self).val(j));
                        assert(forall|v: int| !self.sq(j).dom_has(v));
                    } else {
                        assert(self.sq(j) == prev.sq(j));
                    }
                }
                assert forall|j: int, v: int|
                    0 <= j < counter as int + 1 && old(self).val(j) == 0 implies (
                #[trigger] self.sq(j).dom_has(v) <==> old(self).sq(j).dom_has(v) && !peer_val(
                    *old(self),
                    j,
                    v,
                )) by {
                    if j == counter as int {
                        assert(prev.val(j) == old(self).val(j));
                        assert(self.sq(j).dom_has(v) <==> (prev.sq(j).dom_has(v) && !peer_val(
                            prev,
                            j,
                            v,
                        )));
                        assert(peer_val(prev, j, v) == peer_val(*old(self), j, v));
                    } else {
                        assert(self.sq(j) == prev.sq(j));
                    }
                }
                assert forall|j: int|
                    0 <= j < counter as int + 1 implies (#[trigger] self.sq(j)).dom_size() <= old(
                        self,
                    ).sq(j).dom_size() by {
                    if j != counter as int {
                        assert(self.sq(j) == prev.sq(j));
                    }
                }
            }
            counter = counter + 1;
        }
    }

    /// The grid as text: each row's values separated by single spaces, one
    /// row per line, with a blank line after the grid. A grid that is not
    /// well-formed renders as the blank line alone.
    pub fn render(&self) -> (r: String)
        ensures
            self.wf() ==> r@ == text::render_grid(self.vals(), self.dim()),
            !self.wf() ==> r@ == seq!['\n'],
    {
        let mut out = String::new();
        if !self.check_wf() {
            text::push_newline(&mut out);
            proof {
                assert(out@ =~= seq!['\n']);
            }
            return out;
        }
        let d = self.dimension;
        let n = self.squares.len();
        let ghost vals = self.vals();
        let mut y: usize = 0;
        proof {
            assert(vals.skip(0) =~= vals);
        }
        while y < d
            invariant
                y <= d,
                d == self.dim(),
                n == self.len(),
                self.wf(),
                vals == self.vals(),
                out@ + text::render_rows(vals.skip(y as int * d as int), d as int)
                    == text::render_rows(vals, d as int),
            decreases d - y,
        {
            let ghost row = vals.skip(y as int * d as int).take(d as int);
            let ghost row_start = out@;
            proof {
                assert(y as int * d as int + d <= d * d && (y as int + 1) * d == y as int
                    * d as int + d) by (nonlinear_arith)
                    requires
                        0 <= y < d,
                ;
                let s = vals.skip(y as int * d as int);
                assert(s.len() == n - y as int * d as int);
                if s.len() <= d {
                    assert(s.take(d as int) =~= s);
                    assert(vals.skip(y as int * d as int + d) =~= Seq::<int>::empty());
                    assert(text::render_rows(Seq::<int>::empty(), d as int)
                        == Seq::<char>::empty());
                    assert(text::render_rows(s, d as int) =~= text::render_cells(row) + seq!['\n']
                        + text::render_rows(vals.skip(y as int * d as int + d), d as int));
                } else {
                    assert(s.skip(d as int) =~= vals.skip(y as int * d as int + d));
                    assert(text::render_rows(s, d as int) =~= text::render_cells(row) + seq!['\n']
                        + text::render_rows(vals.skip(y as int * d as int + d), d as int));
                }
                assert(row.skip(0) =~= row);
            }
            let mut x: usize = 0;
            while x < d
                invariant
                    x <= d,
                    y < d,
                    d == self.dim(),
                    n == self.len(),
                    self.wf(),
                    vals == self.vals(),
                    row == vals.skip(y as int * d as int).take(d as int),
                    row.len() == d,
                    out@ + text::render_cells(row.skip(x as int)) == row_start
                        + text::render_cells(row),
                decreases d - x,
            {
                proof {
                    assert(y as int * d as int + x < d * d) by (nonlinear_arith)
                        requires
                            0 <= y < d,
                            0 <= x < d,
                    ;
                    assert(row.skip(x as int).drop_first() =~= row.skip(x as int + 1));
                    assert(y as int * d as int + d <= d * d) by (nonlinear_arith)
                        requires
                            0 <= y < d,
                    ;
                    assert(vals.skip(y as int * d as int).len() >= d);
                    assert(row[x as int] == vals.skip(y as int * d as int)[x as int]);
                    assert(vals.skip(y as int * d as int)[x as int] == vals[y as int * d as int
                        + x]);
                    assert(row.skip(x as int)[0] == row[x as int]);
                    assert(vals[y as int * d as int + x] == self.val(y as int * d as int + x));
                }
                let idx = y * d + x;
                let v = self.squares[idx].value;
                let ghost before = out@;
                text::push_value(&mut out, v);
                text::push_space(&mut out);
                proof {
                    assert(text::render_cells(row.skip(x as int)) =~= text::dec_digits(v as int)
                        + seq![' '] + text::render_cells(row.skip(x as int + 1)));
                    assert(out@ =~= before + text::dec_digits(v as int) + seq![' ']);
                    assert(out@ + text::render_cells(row.skip(x as int + 1)) =~= row_start
                        + text::render_cells(row));
                }
                x = x + 1;
            }
            proof {
                assert(row.skip(d as int) =~= Seq::<int>::empty());
                assert(text::render_cells(Seq::<int>::empty()) == Seq::<char>::empty());
                assert(out@ =~= row_start + text::render_cells(row));
            }
            text::push_newline(&mut out);
            proof {
                assert(out@ + text::render_rows(vals.skip((y + 1) as int * d as int), d as int)
                    =~= text::render_rows(vals, d as int));
            }
            y = y + 1;
        }
        proof {
            assert(vals.skip(d as int * d as int) =~= Seq::<int>::empty());
            assert(text::render_rows(Seq::<int>::empty(), d as int) == Seq::<char>::empty());
            assert(out@ =~= text::render_rows(vals, d as int));
        }
        text::push_newline(&mut out);
        proof {
            assert(out@ =~= text::render_grid(vals, d as int));
        }
        out
    }

    /// The first position whose candidate set holds exactly `n` values.
    pub fn find_next_n_domain(&self, n: usize) -> (r: Option<usize>)
        ensures
            r matches Some(i) ==> i < self.len() && self.sq(i as int).dom_size() == n && (
            forall|j: int| 0 <= j < i ==> (#[trigger] self.sq(j)).dom_size() != n),
            r is None ==> forall|j: int|
                0 <= j < self.len() ==> (#[trigger] self.sq(j)).dom_size() != n,
    {
        let count = self.squares.len();
        let mut i: usize = 0;
        while i < count
            invariant
                i <= count,
                count == self.len(),
                forall|j: int| 0 <= j < i ==> (#[trigger] self.sq(j)).dom_size() != n,
            decreases count - i,
        {
            if self.squares[i].get_domain_size() == n {
                return Some(i);
            }
            i = i + 1;
        }
        None
    }

    /// The first empty position, in row-major order.
    pub fn find_next_empty_square(&self) -> (r: Option<usize>)
        ensures
            r matches Some(i) ==> i < self.len() && self.val(i as int) == 0 && (forall|j: int|
                0 <= j < i ==> #[trigger] self.val(j) != 0),
            r is None ==> self.filled(),
    {
        let count = self.squares.len();
        let mut i: usize = 0;
        while i < count
            invariant
                i <= count,
                count == self.len(),
                forall|j: int| 0 <= j < i ==> #[trigger] self.val(j) != 0,
            decreases count - i,
        {
            if self.squares[i].value == 0 {
                return Some(i);
            }
            i = i + 1;
        }
        None
    }

    /// A grid whose values already form a solution: filled, in range, and
    /// without duplicates in any row, column or block.
    pub open spec fn start_solved(self) -> bool {
        &&& self.wf()
        &&& self.filled()
        &&& forall|i: int| 0 <= i < self.len() ==> 1 <= #[trigger] self.val(i) <= self.dim()
        &&& self.units_ok()
    }

    /// Solve the puzzle in place by candidate propagation and backtracking
    /// search. On success the grid holds a solution; on failure it is left
    /// in its last examined state, which is invalid.
    pub fn solve(&mut self) -> (r: Result<(), &'static str>)
        ensures
            final(self).dim() == old(self).dim(),
            final(self).len() == old(self).len(),
            r is Ok ==> final(self).valid() && final(self).filled(),
            r matches Err(m) ==> !final(self).valid() && m@ == "The sudoku puzzle is invalid"@,
            forall|i: int|
                0 <= i < old(self).len() && old(self).val(i) != 0 ==> #[trigger] final(self).val(i)
                    == old(self).val(i),
            old(self).start_solved() ==> r is Ok && (forall|i: int|
                0 <= i < old(self).len() ==> #[trigger] final(self).val(i) == old(self).val(i)),
    {
        if !self.check_wf() {
            return Err("The sudoku puzzle is invalid");
        }
        let n = self.squares.len();
        proof {
            assert(self.dim() < usize::MAX) by (nonlinear_arith)
                requires
                    self.dim() * self.dim() == n,
                    n <= usize::MAX,
                    self.dim() >= 0,
                    usize::MAX >= 2,
            ;
        }
        self.reset_domains();
        let mut history: Vec<Snapshot> = Vec::new();
        loop
            invariant
                self.wf(),
                n == self.len(),
                n == old(self).len(),
                self.dim() == old(self).dim(),
                stack_ok(history@, *self),
                forall|i: int|
                    0 <= i < n && old(self).val(i) != 0 ==> #[trigger] self.val(i) == old(
                        self,
                    ).val(i),
                forall|j: int, i: int|
                    0 <= j < history@.len() && 0 <= i < n && old(self).val(i) != 0 ==> (
                    #[trigger] history@[j].squares@[i]).value as int == old(self).val(i),
                old(self).start_solved() ==> (history@.len() == 0 && (forall|i: int|
                    0 <= i < n ==> #[trigger] self.val(i) == old(self).val(i))),
            decreases stack_measure(history@) + pow3(sq_sum(self.squares@) as nat),
        {
            let ghost m0 = stack_measure(history@) + pow3(sq_sum(self.squares@) as nat);
            let ghost prev = *self;
            self.update_domains();
            proof {
                lemma_sq_sum_nonneg(self.squares@);
                lemma_sq_sum_nonneg(prev.squares@);
                assert forall|i: int|
                    0 <= i < n implies (#[trigger] self.squares@[i]).dom_size()
                    <= prev.squares@[i].dom_size() by {
                    assert(self.sq(i).dom_size() <= prev.sq(i).dom_size());
                }
                lemma_sq_sum_le(prev.squares@, self.squares@);
                lemma_pow3_mono(sq_sum(self.squares@) as nat, sq_sum(prev.squares@) as nat);
                assert forall|j: int| 0 <= j < history@.len() implies {
                    &&& (#[trigger] history@[j]).squares@.len() == self.len()
                    &&& history@[j].index < self.len()
                    &&& history@[j].squares@[history@[j].index as int].dom_has(
                        (if j + 1 < history@.len() {
                            history@[j + 1].squares@
                        } else {
                            self.squares@
                        })[history@[j].index as int].value as int,
                    )
                } by {
                    if j + 1 == history@.len() {
                        let idx = history@[j].index as int;
                        assert(self.val(idx) == prev.val(idx));
                    }
                }
                if old(self).start_solved() {
                    assert forall|i: int|
                        0 <= i < n implies (#[trigger] self.sq(i)).dom_size() == 0 && self.val(i)
                        == old(self).val(i) && 1 <= self.val(i) <= self.dim() by {
                        assert(prev.val(i) == old(self).val(i));
                        assert(old(self).val(i) != 0);
                        assert(forall|v: int| !self.sq(i).dom_has(v));
                        self.sq(i).lemma_dom_size_zero();
                        self.sq(i).lemma_dom_size_nonneg();
                    }
                    assert(self.filled());
                    assert(self.local_ok());
                    lemma_same_vals_units_ok(*old(self), *self);
                    assert(self.valid());
                }
            }
            if !self.is_valid() {
                let ghost h_pre = history@;
                match history.pop() {
                    Some(snap) => {
                        let ghost top = h_pre.len() - 1;
                        proof {
                            assert(h_pre[top] == snap);
                            assert(history@ =~= h_pre.drop_last());
                            assert(stack_ok(h_pre, *self));
                            assert(snap.squares@.len() == n && snap.index < n);
                            assert(snap.squares@[snap.index as int].dom_has(
                                self.squares@[snap.index as int].value as int,
                            ));
                        }
                        let Snapshot { squares: snap_squares, index } = snap;
                        let wrong_value = self.squares[index].value;
                        self.squares = snap_squares;
                        let mut sqv = self.squares[index].clone();
                        proof {
                            sqv.lemma_dom_size_nonneg();
                        }
                        let removed = sqv.remove_from_domain(&wrong_value);
                        proof {
                            assert(removed);
                        }
                        self.squares.set(index, sqv);
                        proof {
                            let snapsq = snap.squares@;
                            lemma_sq_sum_update(snapsq, index as int, sqv);
                            lemma_sq_sum_ge_elem(snapsq, index as int);
                            assert(sq_sum(self.squares@) == sq_sum(snapsq) - 1);
                            assert(h_pre.drop_last() =~= history@);
                            assert(stack_measure(h_pre) == stack_measure(history@) + pow3(
                                (sq_sum(snapsq) - 1) as nat,
                            ));
                            lemma_pow3_pos(sq_sum(prev.squares@) as nat);
                            lemma_pow3_pos(sq_sum(snapsq) as nat);
                            assert(stack_measure(history@) + pow3(sq_sum(self.squares@) as nat)
                                < m0);
                            assert forall|j: int| 0 <= j < history@.len() implies {
                                &&& (#[trigger] history@[j]).squares@.len() == self.len()
                                &&& history@[j].index < self.len()
                                &&& history@[j].squares@[history@[j].index as int].dom_has(
                                    (if j + 1 < history@.len() {
                                        history@[j + 1].squares@
                                    } else {
                                        self.squares@
                                    })[history@[j].index as int].value as int,
                                )
                            } by {
                                assert(h_pre[j] == history@[j]);
                                if j + 1 < h_pre.len() {
                                    assert(h_pre[j + 1] == if j + 1 < history@.len() {
                                        history@[j + 1]
                                    } else {
                                        snap
                                    });
                                }
                                if j + 1 == history@.len() {
                                    let idx = history@[j].index as int;
                                    assert(self.squares@[idx].value == snap.squares@[idx].value);
                                }
                            }
                            assert forall|i: int|
                                0 <= i < n && old(self).val(i) != 0 implies #[trigger] self.val(i)
                                == old(self).val(i) by {
                                assert((h_pre[top].squares@[i]).value as int == old(self).val(i));
                                if i != index as int {
                                    assert(self.squares@[i] == snap.squares@[i]);
                                } else {
                                    assert(sqv.value == snap.squares@[i].value);
                                }
                            }
                            assert forall|j: int, i: int|
                                0 <= j < history@.len() && 0 <= i < n && old(self).val(i)
                                != 0 implies (#[trigger] history@[j].squares@[i]).value as int
                                == old(self).val(i) by {
                                assert(history@[j] == h_pre[j]);
                                assert((h_pre[j].squares@[i]).value as int == old(self).val(i));
                            }
                        }
                    },
                    None => {
                        return Err("The sudoku puzzle is invalid");
                    },
                }
                proof {
                    lemma_stack_measure_nonneg(history@);
                    lemma_sq_sum_nonneg(self.squares@);
                    lemma_pow3_pos(sq_sum(self.squares@) as nat);
                }
                continue ;
            }
            match self.find_next_n_domain(1) {
                Some(index) => {
                    let ghost before = *self;
                    let mut sqv = self.squares[index].clone();
                    proof {
                        sqv.lemma_dom_size_zero();
                        assert(exists|w: int| sqv.dom_has(w));
                        assert(exists|w: int| self.sq(index as int).dom_has(w));
                    }
                    sqv.set_value_from_domain();
                    self.squares.set(index, sqv);
                    proof {
                        lemma_assign_step(before, *self, index as int, sqv);
                        lemma_sq_sum_nonneg(self.squares@);
                        lemma_pow3_strict(
                            sq_sum(self.squares@) as nat,
                            sq_sum(before.squares@) as nat,
                        );
                        lemma_pow3_mono(
                            sq_sum(before.squares@) as nat,
                            sq_sum(prev.squares@) as nat,
                        );
                        lemma_stack_measure_nonneg(history@);
                        lemma_pow3_pos(sq_sum(self.squares@) as nat);
                        assert(stack_measure(history@) + pow3(sq_sum(self.squares@) as nat) < m0);
                        assert(before.val(index as int) == 0);
                        assert forall|j: int| 0 <= j < history@.len() implies {
                            &&& (#[trigger] history@[j]).squares@.len() == self.len()
                            &&& history@[j].index < self.len()
                            &&& history@[j].squares@[history@[j].index as int].dom_has(
                                (if j + 1 < history@.len() {
                                    history@[j + 1].squares@
                                } else {
                                    self.squares@
                                })[history@[j].index as int].value as int,
                            )
                        } by {
                            if j + 1 == history@.len() {
                                let idx = history@[j].index as int;
                                assert(before.val(idx) != 0);
                                assert(idx != index);
                                assert(self.squares@[idx] == before.squares@[idx]);
                            }
                        }
                        assert forall|i: int|
                            0 <= i < n && old(self).val(i) != 0 implies #[trigger] self.val(i)
                            == old(self).val(i) by {
                            assert(prev.val(i) == old(self).val(i));
                            assert(before.val(i) == prev.val(i));
                            if i != index as int {
                                assert(self.squares@[i] == before.squares@[i]);
                            } else {
                                assert(before.val(i) == 0);
                            }
                        }
                    }
                },
                None => {
                    let two = self.find_next_n_domain(2);
                    let choice = if two.is_some() {
                        two
                    } else {
                        self.find_next_empty_square()
                    };
                    match choice {
                        Some(index) => {
                            proof {
                                if self.val(index as int) == 0 {
                                    assert(self.sq(index as int).locally_valid(self.dim()));
                                }
                                self.sq(index as int).lemma_dom_size_zero();
                                assert(exists|w: int| self.sq(index as int).dom_has(w));
                            }
                            let ghost h_old = history@;
                            let ghost before = *self;
                            let snap_squares = self.squares.clone();
                            proof {
                                lemma_cloned_squares(self.squares@, snap_squares@);
                            }
                            history.push(Snapshot { squares: snap_squares, index });
                            let mut sqv = self.squares[index].clone();
                            sqv.set_value_from_domain();
                            self.squares.set(index, sqv);
                            proof {
                                let h_new = history@;
                                let entry = h_new.last();
                                assert(h_new.drop_last() =~= h_old);
                                lemma_assign_step(before, *self, index as int, sqv);
                                let s_before = sq_sum(before.squares@);
                                assert(sq_sum(entry.squares@) == s_before);
                                before.sq(index as int).lemma_dom_size_zero();
                                before.sq(index as int).lemma_dom_size_nonneg();
                                lemma_sq_sum_ge_elem(before.squares@, index as int);
                                assert(s_before >= 1);
                                assert(stack_measure(h_new) == stack_measure(h_old) + pow3(
                                    (s_before - 1) as nat,
                                ));
                                lemma_sq_sum_nonneg(self.squares@);
                                lemma_pow3_mono(
                                    sq_sum(self.squares@) as nat,
                                    (s_before - 1) as nat,
                                );
                                assert(pow3(s_before as nat) == 3 * pow3((s_before - 1) as nat));
                                lemma_pow3_pos((s_before - 1) as nat);
                                lemma_pow3_mono(s_before as nat, sq_sum(prev.squares@) as nat);
                                lemma_stack_measure_nonneg(h_new);
                                lemma_pow3_pos(sq_sum(self.squares@) as nat);
                                assert(stack_measure(h_new) + pow3(sq_sum(self.squares@) as nat)
                                    < m0);
                                assert forall|j: int| 0 <= j < h_new.len() implies {
                                    &&& (#[trigger] h_new[j]).squares@.len() == self.len()
                                    &&& h_new[j].index < self.len()
                                    &&& h_new[j].squares@[h_new[j].index as int].dom_has(
                                        (if j + 1 < h_new.len() {
                                            h_new[j + 1].squares@
                                        } else {
                                            self.squares@
                                        })[h_new[j].index as int].value as int,
                                    )
                                } by {
                                    if j < h_old.len() {
                                        assert(h_new[j] == h_old[j]);
                                        if j + 1 < h_old.len() {
                                            assert(h_new[j + 1] == h_old[j + 1]);
                                        } else {
                                            let idx = h_old[j].index as int;
                                            assert(before.val(idx) != 0);
                                            assert(entry.squares@[idx].value
                                                == before.squares@[idx].value);
                                        }
                                    } else {
                                        assert(h_new[j] == entry);
                                        assert(entry.squares@[index as int].dom_has(
                                            sqv.value as int,
                                        ));
                                        assert(self.squares@[index as int] == sqv);
                                    }
                                }
                                assert forall|i: int|
                                    0 <= i < n && old(self).val(i) != 0 implies #[trigger] self.val(
                                    i) == old(self).val(i) by {
                                    assert(prev.val(i) == old(self).val(i));
                                    assert(before.val(i) == prev.val(i));
                                    if i != index as int {
                                        assert(self.squares@[i] == before.squares@[i]);
                                    } else {
                                        assert(before.val(i) == 0);
                                    }
                                }
                                assert forall|j: int, i: int|
                                    0 <= j < h_new.len() && 0 <= i < n && old(self).val(i)
                                    != 0 implies (#[trigger] h_new[j].squares@[i]).value as int
                                    == old(self).val(i) by {
                                    if j < h_old.len() {
                                        assert(h_new[j] == h_old[j]);
                                        assert((h_old[j].squares@[i]).value as int == old(
                                            self,
                                        ).val(i));
                                    } else {
                                        assert(h_new[j] == entry);
                                        assert(entry.squares@[i].value
                                            == before.squares@[i].value);
                                        assert(prev.val(i) == old(self).val(i));
                                        assert(before.val(i) == prev.val(i));
                                    }
                                }
                            }
                        },
                        None => {
                            proof {
                                assert(self.filled());
                            }
                            return Ok(());
                        },
                    }
                },
            }
        }
    }

    /// The square at position `(x, y)`, if the grid has one there.
    pub fn get(&self, x: usize, y: usize) -> (r: Option<&Square>)
        ensures
            r matches Some(s) ==> x < self.dim() && y < self.dim() && *s == self.sq(
                y * self.dim() + x,
            ),
            r is None <==> !(x < self.dim() && y < self.dim() && y * self.dim() + x < self.len()),
    {
        if x < self.dimension && y < self.dimension {
            let d = self.dimension;
            let n = self.squares.len();
            let q = n / d;
            let rm = n % d;
            proof {
                lemma_fundamental_div_mod(n as int, d as int);
                lemma_mod_division_less_than_divisor(n as int, d as int);
            }
            if y < q || (y == q && x < rm) {
                proof {
                    assert(y as int * d as int + x < n) by (nonlinear_arith)
                        requires
                            n == d as int * q as int + rm,
                            0 <= rm < d,
                            0 <= x < d,
                            0 <= y,
                            y < q || (y == q && x < rm),
                    ;
                }
                let idx = y * d + x;
                Some(&self.squares[idx])
            } else {
                proof {
                    assert(y as int * d as int + x >= n) by (nonlinear_arith)
                        requires
                            n == d as int * q as int + rm,
                            0 <= rm < d,
                            0 <= x < d,
                            0 <= y,
                            !(y < q || (y as int == q && x < rm)),
                    ;
                }
                None
            }
        } else {
            None
        }
    }
}

/// `v` is a value already held by a peer of position `i`: another position
/// in the same row, column or block.
pub open spec fn peer_val(pre: Puzzle, i: int, v: int) -> bool {
    let d = pre.dim();
    v != 0 && (seq_has(pre.col_cells(i % d), v) || seq_has(pre.row_cells(i / d), v) || seq_has(
        pre.grp_cells(i % d, i / d),
        v,
    ))
}

/// How one propagation pass rewrites the grid: values are untouched, fixed
/// squares lose their candidates, and every empty square keeps exactly the
/// candidates no peer already holds. Candidate sets never grow.
pub open spec fn propagated(pre: Puzzle, post: Puzzle) -> bool {
    &&& post.dim() == pre.dim()
    &&& post.len() == pre.len()
    &&& forall|i: int| 0 <= i < pre.len() ==> #[trigger] post.val(i) == pre.val(i)
    &&& forall|i: int|
        0 <= i < pre.len() && pre.val(i) != 0 ==> (forall|v: int|
            !(#[trigger] post.sq(i)).dom_has(v))
    &&& forall|i: int, v: int|
        0 <= i < pre.len() && pre.val(i) == 0 ==> (#[trigger] post.sq(i).dom_has(v) <==> pre.sq(i).dom_has(v) && !peer_val(pre, i, v))
    &&& forall|i: int|
        0 <= i < pre.len() ==> (#[trigger] post.sq(i)).dom_size() <= pre.sq(i).dom_size()
}

/// Two grids of the same shape and the same values present the same rows,
/// columns and blocks.
proof fn lemma_same_vals_same_units(a: Puzzle, b: Puzzle, x: int, y: int)
    requires
        a.wf(),
        b.dim() == a.dim(),
        b.len() == a.len(),
        forall|j: int| 0 <= j < a.len() ==> a.val(j) == #[trigger] b.val(j),
        0 <= x < a.dim(),
        0 <= y < a.dim(),
    ensures
        a.col_cells(x) == b.col_cells(x),
        a.row_cells(y) == b.row_cells(y),
        a.grp_cells(x, y) == b.grp_cells(x, y),
{
    let d = a.dim();
    let n = a.len();
    assert forall|k: int| 0 <= k < d implies a.col_cells(x)[k] == b.col_cells(x)[k] by {
        assert(x + k * d < n) by (nonlinear_arith)
            requires
                0 <= x < d,
                0 <= k < d,
                n == d * d,
        ;
        assert(a.val(x + k * d) == b.val(x + k * d));
    }
    assert(a.col_cells(x) =~= b.col_cells(x));
    assert forall|k: int| 0 <= k < d implies a.row_cells(y)[k] == b.row_cells(y)[k] by {
        assert(y * d + k < n) by (nonlinear_arith)
            requires
                0 <= y < d,
                0 <= k < d,
                n == d * d,
        ;
        assert(a.val(y * d + k) == b.val(y * d + k));
    }
    assert(a.row_cells(y) =~= b.row_cells(y));
    let g = group_dim(d);
    let g0 = choose|g0: int| is_group_dim(d, g0);
    lemma_group_dim_unique(d, g0);
    assert(g >= 1 || d == 0) by (nonlinear_arith)
        requires
            g * g == d,
            g >= 0,
    ;
    assert forall|k: int| 0 <= k < d implies a.grp_cells(x, y)[k] == b.grp_cells(x, y)[k] by {
        lemma_mod_division_less_than_divisor(k, g);
        lemma_multiply_divide_lt(k, g, g);
        lemma_div_pos_is_pos(k, g);
        lemma_multiply_divide_lt(x, g, g);
        lemma_multiply_divide_lt(y, g, g);
        lemma_div_pos_is_pos(x, g);
        lemma_div_pos_is_pos(y, g);
        let idx = (x / g) * g + k % g + ((y / g) * g + k / g) * d;
        assert(0 <= idx < n) by (nonlinear_arith)
            requires
                0 <= k % g < g,
                0 <= k / g < g,
                0 <= x / g < g,
                0 <= y / g < g,
                g >= 1,
                n == d * d,
                d == g * g,
                idx == (x / g) * g + k % g + ((y / g) * g + k / g) * d,
        ;
        assert(a.val(idx) == b.val(idx));
    }
    assert(a.grp_cells(x, y) =~= b.grp_cells(x, y));
}

/// Powers of three, the weight of one unit of remaining candidate work in
/// the termination measure of the search.
pub open spec fn pow3(e: nat) -> int
    decreases e,
{
    if e == 0 {
        1
    } else {
        3 * pow3((e - 1) as nat)
    }
}

pub proof fn lemma_pow3_pos(e: nat)
    ensures
        pow3(e) >= 1,
    decreases e,
{
    if e > 0 {
        lemma_pow3_pos((e - 1) as nat);
    }
}

pub proof fn lemma_pow3_mono(a: nat, b: nat)
    requires
        a <= b,
    ensures
        pow3(a) <= pow3(b),
    decreases b,
{
    if a < b {
        lemma_pow3_mono(a, (b - 1) as nat);
        lemma_pow3_pos((b - 1) as nat);
    }
}

/// Total number of candidates left across a sequence of squares.
pub open spec fn sq_sum(s: Seq<Square>) -> int
    decreases s.len(),
{
    if s.len() == 0 {
        0
    } else {
        sq_sum(s.drop_last()) + s.last().dom_size()
    }
}

pub proof fn lemma_sq_sum_nonneg(s: Seq<Square>)
    ensures
        0 <= sq_sum(s),
    decreases s.len(),
{
    if s.len() > 0 {
        lemma_sq_sum_nonneg(s.drop_last());
        s.last().lemma_dom_size_nonneg();
    }
}

/// Candidate totals respect pointwise bounds on candidate counts.
pub proof fn lemma_sq_sum_le(s1: Seq<Square>, s2: Seq<Square>)
    requires
        s1.len() == s2.len(),
        forall|i: int| 0 <= i < s2.len() ==> (#[trigger] s2[i]).dom_size() <= s1[i].dom_size(),
    ensures
        sq_sum(s2) <= sq_sum(s1),
    decreases s1.len(),
{
    if s1.len() > 0 {
        assert(forall|i: int|
            0 <= i < s2.len() - 1 ==> (#[trigger] s2.drop_last()[i]).dom_size()
                <= s1.drop_last()[i].dom_size());
        lemma_sq_sum_le(s1.drop_last(), s2.drop_last());
        assert(s2.last().dom_size() <= s1.last().dom_size());
    }
}

/// Replacing one square changes the candidate total by the difference of
/// that square's candidate counts.
pub proof fn lemma_sq_sum_update(s: Seq<Square>, i: int, sq: Square)
    requires
        0 <= i < s.len(),
    ensures
        sq_sum(s.update(i, sq)) == sq_sum(s) - s[i].dom_size() + sq.dom_size(),
    decreases s.len(),
{
    let t = s.update(i, sq);
    if i == s.len() - 1 {
        assert(t.drop_last() =~= s.drop_last());
        assert(t.last() == sq);
    } else {
        assert(t.drop_last() =~= s.drop_last().update(i, sq));
        assert(t.last() == s.last());
        lemma_sq_sum_update(s.drop_last(), i, sq);
        assert(s.drop_last()[i] == s[i]);
    }
}

/// The candidate total is at least any one square's candidate count.
pub proof fn lemma_sq_sum_ge_elem(s: Seq<Square>, i: int)
    requires
        0 <= i < s.len(),
    ensures
        sq_sum(s) >= s[i].dom_size(),
    decreases s.len(),
{
    if i == s.len() - 1 {
        lemma_sq_sum_nonneg(s.drop_last());
    } else {
        lemma_sq_sum_ge_elem(s.drop_last(), i);
        assert(s.drop_last()[i] == s[i]);
        s.last().lemma_dom_size_nonneg();
    }
}

/// A saved copy of the grid at a branch point, together with the position
/// that was guessed there.
struct Snapshot {
    squares: Vec<Square>,
    index: usize,
}

/// The weight a stack of snapshots contributes to the termination measure:
/// each snapshot counts the candidate work that remains once its guessed
/// value has been pruned.
spec fn stack_measure(h: Seq<Snapshot>) -> int
    decreases h.len(),
{
    if h.len() == 0 {
        0
    } else {
        stack_measure(h.drop_last()) + pow3((sq_sum(h.last().squares@) - 1) as nat)
    }
}

proof fn lemma_stack_measure_nonneg(h: Seq<Snapshot>)
    ensures
        0 <= stack_measure(h),
    decreases h.len(),
{
    if h.len() > 0 {
        lemma_stack_measure_nonneg(h.drop_last());
        lemma_pow3_pos((sq_sum(h.last().squares@) - 1) as nat);
    }
}

/// The invariant of the snapshot stack: every snapshot fits the grid, and
/// the value standing at its branch position in the state above it (the
/// next snapshot, or the live grid) was drawn from the snapshot's own
/// candidate set there.
spec fn stack_ok(h: Seq<Snapshot>, cur: Puzzle) -> bool {
    forall|j: int|
        0 <= j < h.len() ==> {
            &&& (#[trigger] h[j]).squares@.len() == cur.len()
            &&& h[j].index < cur.len()
            &&& h[j].squares@[h[j].index as int].dom_has(
                (if j + 1 < h.len() {
                    h[j + 1].squares@
                } else {
                    cur.squares@
                })[h[j].index as int].value as int,
            )
        }
}

/// A clone of a sequence of squares carries the same values and candidate
/// sets.
proof fn lemma_cloned_squares(a: Seq<Square>, b: Seq<Square>)
    requires
        a.len() == b.len(),
        forall|i: int| 0 <= i < a.len() ==> cloned::<Square>(a[i], #[trigger] b[i]),
    ensures
        forall|i: int| 0 <= i < a.len() ==> (#[trigger] b[i]).value == a[i].value,
        forall|i: int, v: int|
            0 <= i < a.len() ==> ((#[trigger] b[i].dom_has(v)) <==> a[i].dom_has(v)),
        forall|i: int| 0 <= i < a.len() ==> (#[trigger] b[i]).dom_size() == a[i].dom_size(),
        sq_sum(b) == sq_sum(a),
{
    assert forall|i: int| 0 <= i < a.len() implies (#[trigger] b[i]).value == a[i].value
        && b[i].dom_size() == a[i].dom_size() by {
        if a[i] != b[i] {
            assert(call_ensures(<Square as Clone>::clone, (&a[i],), b[i]));
        }
    }
    assert forall|i: int, v: int|
        0 <= i < a.len() implies ((#[trigger] b[i].dom_has(v)) <==> a[i].dom_has(v)) by {
        if a[i] != b[i] {
            assert(call_ensures(<Square as Clone>::clone, (&a[i],), b[i]));
        }
    }
    lemma_sq_sum_le(a, b);
    lemma_sq_sum_le(b, a);
}

pub proof fn lemma_pow3_strict(a: nat, b: nat)
    requires
        a < b,
    ensures
        pow3(a) < pow3(b),
{
    lemma_pow3_mono(a, (b - 1) as nat);
    lemma_pow3_pos((b - 1) as nat);
}

/// Fixing one square to a value drawn from its candidate set, clearing the
/// set, lowers the candidate total and leaves every other square alone.
proof fn lemma_assign_step(before: Puzzle, after: Puzzle, index: int, sqv: Square)
    requires
        before.wf(),
        0 <= index < before.len(),
        after.dimension == before.dimension,
        after.squares@ == before.squares@.update(index, sqv),
        before.sq(index).dom_has(sqv.value as int),
        sqv.dom_size() == 0,
    ensures
        after.wf(),
        after.len() == before.len(),
        after.dim() == before.dim(),
        sq_sum(after.squares@) <= sq_sum(before.squares@) - 1,
        after.val(index) == sqv.value as int,
        after.val(index) >= 1,
        forall|j: int| 0 <= j < before.len() && j != index ==> after.sq(j) == before.sq(j),
{
    lemma_sq_sum_update(before.squares@, index, sqv);
    before.sq(index).lemma_dom_size_zero();
    before.sq(index).lemma_dom_size_nonneg();
    assert(before.sq(index).dom_size() >= 1);
}

/// Two grids of the same shape and the same values agree on duplicate
/// freedom of their rows, columns and blocks.
proof fn lemma_same_vals_units_ok(a: Puzzle, b: Puzzle)
    requires
        a.wf(),
        b.dim() == a.dim(),
        b.len() == a.len(),
        forall|j: int| 0 <= j < a.len() ==> a.val(j) == #[trigger] b.val(j),
        a.units_ok(),
    ensures
        b.units_ok(),
{
    let d = a.dim();
    let g = group_dim(d);
    assert forall|c: int| 0 <= c < b.dim() implies {
        &&& !has_dup(nonzero_vals(#[trigger] b.col_cells(c)))
        &&& !has_dup(nonzero_vals(b.row_cells(c)))
        &&& !has_dup(nonzero_vals(b.grp_cells((c % g) * g, (c / g) * g)))
    } by {
        let g0 = choose|g0: int| is_group_dim(d, g0);
        lemma_group_dim_unique(d, g0);
        assert(g >= 1) by (nonlinear_arith)
            requires
                g * g == d,
                g >= 0,
                d >= 1,
        ;
        lemma_mod_division_less_than_divisor(c, g);
        lemma_multiply_divide_lt(c, g, g);
        lemma_div_pos_is_pos(c, g);
        assert((c % g) * g + g <= d && (c / g) * g + g <= d) by (nonlinear_arith)
            requires
                0 <= c % g < g,
                0 <= c / g < g,
                g >= 1,
                d == g * g,
        ;
        lemma_same_vals_same_units(a, b, (c % g) * g, (c / g) * g);
        assert(a.col_cells(c) == b.col_cells(c) && a.row_cells(c) == b.row_cells(c)) by {
            lemma_same_vals_same_units(a, b, c, c);
        }
    }
}

/// Two grids of the same shape and the same values agree on which values
/// are peer values.
proof fn lemma_same_vals_same_units_all(a: Puzzle, b: Puzzle)
    requires
        a.wf(),
        b.dim() == a.dim(),
        b.len() == a.len(),
        forall|j: int| 0 <= j < a.len() ==> a.val(j) == #[trigger] b.val(j),
    ensures
        forall|i: int, v: int|
            0 <= i < a.len() ==> (#[trigger] peer_val(b, i, v) == peer_val(a, i, v)),
{
    assert forall|i: int, v: int|
        0 <= i < a.len() implies (#[trigger] peer_val(b, i, v) == peer_val(a, i, v)) by {
        let d = a.dim();
        assert(d >= 1) by (nonlinear_arith)
            requires
                d * d == a.len(),
                a.len() > i >= 0,
                d >= 0,
        ;
        lemma_mod_division_less_than_divisor(i, d);
        lemma_multiply_divide_lt(i, d, d);
        lemma_div_pos_is_pos(i, d);
        lemma_same_vals_same_units(a, b, i % d, i / d);
    }
}

/// Remove every value of `list` from the candidate set of `sq`.
fn remove_all(sq: &mut Square, list: &Vec<usize>)
    ensures
        final(sq).value == old(sq).value,
        forall|v: int|
            final(sq).dom_has(v) <==> (old(sq).dom_has(v) && !list@.map_values(
                |x: usize| x as int,
            ).contains(v)),
        final(sq).dom_size() <= old(sq).dom_size(),
{
    let n = list.len();
    let ghost mapped = list@.map_values(|x: usize| x as int);
    let mut t: usize = 0;
    while t < n
        invariant
            t <= n,
            n == list@.len(),
            mapped == list@.map_values(|x: usize| x as int),
            sq.value == old(sq).value,
            forall|v: int|
                sq.dom_has(v) <==> (old(sq).dom_has(v) && !mapped.take(t as int).contains(v)),
            sq.dom_size() <= old(sq).dom_size(),
        decreases n - t,
    {
        let w = list[t];
        proof {
            assert(mapped[t as int] == w as int);
            assert forall|v: int|
                mapped.take(t as int + 1).contains(v) <==> (mapped.take(t as int).contains(v) || v
                    == w as int) by {
                let p = mapped.take(t as int + 1);
                if p.contains(v) {
                    let a = choose|a: int| 0 <= a < p.len() && p[a] == v;
                    if a < t {
                        assert(mapped.take(t as int)[a] == v);
                    }
                }
                if mapped.take(t as int).contains(v) {
                    let a = choose|a: int|
                        0 <= a < mapped.take(t as int).len() && mapped.take(t as int)[a] == v;
                    assert(p[a] == v);
                }
                if v == w as int {
                    assert(p[t as int] == v);
                }
            }
        }
        sq.remove_from_domain(&w);
        t = t + 1;
    }
    proof {
        assert(mapped.take(n as int) =~= mapped);
    }
}

/// A column holding the same non-zero value in two positions makes the
/// grid invalid, whatever the rest of the grid holds.
pub proof fn lemma_col_duplicate_invalidates(p: Puzzle, c: int, k1: int, k2: int)
    requires
        0 <= c < p.dim(),
        0 <= k1 < k2 < p.dim(),
        p.col_cells(c)[k1] == p.col_cells(c)[k2],
        p.col_cells(c)[k1] != 0,
    ensures
        !p.valid(),
{
    lemma_nonzero_vals_dup(p.col_cells(c), k1, k2);
}

/// A row holding the same non-zero value in two positions makes the grid
/// invalid, whatever the rest of the grid holds.
pub proof fn lemma_row_duplicate_invalidates(p: Puzzle, c: int, k1: int, k2: int)
    requires
        0 <= c < p.dim(),
        0 <= k1 < k2 < p.dim(),
        p.row_cells(c)[k1] == p.row_cells(c)[k2],
        p.row_cells(c)[k1] != 0,
    ensures
        !p.valid(),
{
    lemma_nonzero_vals_dup(p.row_cells(c), k1, k2);
    if p.units_ok() {
        assert(!has_dup(nonzero_vals(p.col_cells(c))));
        assert(false);
    }
}

/// Block number `c` holding the same non-zero value in two positions makes
/// the grid invalid, whatever the rest of the grid holds.
pub proof fn lemma_block_duplicate_invalidates(p: Puzzle, c: int, k1: int, k2: int)
    requires
        0 <= c < p.dim(),
        0 <= k1 < k2 < p.dim(),
        p.grp_cells(
            (c % group_dim(p.dim())) * group_dim(p.dim()),
            (c / group_dim(p.dim())) * group_dim(p.dim()),
        )[k1] == p.grp_cells(
            (c % group_dim(p.dim())) * group_dim(p.dim()),
            (c / group_dim(p.dim())) * group_dim(p.dim()),
        )[k2],
        p.grp_cells(
            (c % group_dim(p.dim())) * group_dim(p.dim()),
            (c / group_dim(p.dim())) * group_dim(p.dim()),
        )[k1] != 0,
    ensures
        !p.valid(),
{
    let g = group_dim(p.dim());
    lemma_nonzero_vals_dup(p.grp_cells((c % g) * g, (c / g) * g), k1, k2);
    if p.units_ok() {
        assert(!has_dup(nonzero_vals(p.col_cells(c))));
        assert(false);
    }
}

/// One propagation pass only removes candidates: none regrow.
pub proof fn lemma_propagation_shrinks(a: Puzzle, b: Puzzle)
    requires
        propagated(a, b),
    ensures
        forall|i: int, v: int|
            0 <= i < a.len() && #[trigger] b.sq(i).dom_has(v) ==> a.sq(i).dom_has(v),
{
}

/// Propagation without intervening assignments is idempotent: a second
/// pass leaves every value and every candidate set exactly as the first
/// pass left them.
pub proof fn lemma_propagation_idempotent(a: Puzzle, b: Puzzle, c: Puzzle)
    requires
        a.wf(),
        propagated(a, b),
        propagated(b, c),
    ensures
        forall|i: int| 0 <= i < a.len() ==> #[trigger] c.val(i) == b.val(i),
        forall|i: int, v: int|
            0 <= i < a.len() ==> (#[trigger] c.sq(i).dom_has(v) <==> b.sq(i).dom_has(v)),
{
    lemma_same_vals_same_units_all(a, b);
    assert forall|i: int, v: int|
        0 <= i < a.len() implies (#[trigger] c.sq(i).dom_has(v) <==> b.sq(i).dom_has(v)) by {
        if a.val(i) != 0 {
            assert(b.val(i) != 0);
            assert(!b.sq(i).dom_has(v));
            assert(!c.sq(i).dom_has(v));
        } else {
            assert(peer_val(b, i, v) == peer_val(a, i, v));
        }
    }
}

/// Once a value has been pruned from the candidate set a position had at a
/// branch point, candidate sets from there on only shrink, so any value
/// later drawn from them at that position is a different one. The search
/// prunes the guessed value exactly this way when it backtracks, and every
/// assignment draws its value from the current candidate set.
pub proof fn lemma_pruned_value_not_rechosen(pruned: Square, later: Square, v: int, w: int)
    requires
        !pruned.dom_has(v),
        forall|u: int| #[trigger] later.dom_has(u) ==> pruned.dom_has(u),
        later.dom_has(w),
    ensures
        w != v,
{
}

/// Rendering a grid to text and reading the text back yields exactly the
/// grid's value sequence.
pub proof fn lemma_render_read_round_trip(p: Puzzle)
    requires
        p.wf(),
    ensures
        text::parse_values(text::render_grid(p.vals(), p.dim())) == p.vals(),
{
    assert forall|i: int| 0 <= i < p.vals().len() implies 0 <= #[trigger] p.vals()[i]
        <= usize::MAX by {
        assert(p.vals()[i] == p.val(i));
    }
    if p.dim() == 0 {
        assert(p.vals().len() == 0);
    }
    text::lemma_render_parse_round_trip(p.vals(), p.dim());
}

/// `x % m == 0` for a multiple of `m`.
proof fn lemma_mod_multiples_basic_local(x: int, m: int)
    requires
        m > 0,
        x == m * m,
    ensures
        x % m == 0,
{
    assert((m * m) % m == 0) by (nonlinear_arith)
        requires
            m > 0,
    ;
}

/// Whether two entries of `v` are equal.
fn has_duplicate(v: &Vec<usize>) -> (r: bool)
    ensures
        r == has_dup(v@.map_values(|x: usize| x as int)),
{
    let n = v.len();
    let s = Ghost(v@.map_values(|x: usize| x as int));
    let mut i: usize = 0;
    while i < n
        invariant
            i <= n,
            n == v@.len(),
            s@ == v@.map_values(|x: usize| x as int),
            forall|a: int, b: int| 0 <= a < b < s@.len() && a < i ==> s@[a] != s@[b],
        decreases n - i,
    {
        let mut j: usize = i + 1;
        while j < n
            invariant
                i < j <= n || (i + 1 == j && j > n),
                i < n,
                n == v@.len(),
                s@ == v@.map_values(|x: usize| x as int),
                forall|b: int| i < b < j ==> s@[i as int] != s@[b],
            decreases n - j,
        {
            if v[i] == v[j] {
                assert(s@[i as int] == s@[j as int]);
                return true;
            }
            j = j + 1;
        }
        i = i + 1;
    }
    false
}

} // verus!
