//! The tableau engine: an `n` by `n + 1` grid of signed integers with
//! bounds-checked, divisibility-aware row operations.
use std::collections::HashSet;
use vstd::prelude::*;

use crate::factors::{factors, gcd_many, gcd_fold, is_divisor, positives};
use crate::parse::{all_tokens_valid, split_tokens, token_val};
use crate::grid::{
    grid_get, grid_new, grid_nrows, grid_seq, grid_set, grid_size_ok, lemma_size_ok_bound, Grid,
};

verus! {

broadcast use vstd::std_specs::hash::group_hash_axioms;

/// The recoverable failures of the tableau engine.
#[derive(Debug, Clone, Copy, PartialEq, Eq, Structural)]
pub enum TabError {
    /// A row index outside `[0, n)`.
    IndexOutOfBounds,
    /// A literal whose token count fits no supported shape.
    ParseDimension,
    /// A token that does not parse as a signed 32-bit integer.
    ParseToken,
    /// A scalar outside the divisor set of the row's reduced gcd.
    NonExactDivision,
}

impl TabError {
    /// A short description of the failure, for display by callers.
    pub fn describe(&self) -> (s: String)
        ensures
            s@ == match self {
                TabError::IndexOutOfBounds => "Bad idx"@,
                TabError::ParseDimension => "Incorrect dimensions"@,
                TabError::ParseToken => "invalid integer token"@,
                TabError::NonExactDivision => "multiple not in divisors"@,
            },
    {
        match self {
            TabError::IndexOutOfBounds => String::from_str("Bad idx"),
            TabError::ParseDimension => String::from_str("Incorrect dimensions"),
            TabError::ParseToken => String::from_str("invalid integer token"),
            TabError::NonExactDivision => String::from_str("multiple not in divisors"),
        }
    }
}

/// An `n` by `n + 1` grid of `i32`, the single mutable value every command
/// operates on.  The last column is by convention the augmented column, but
/// every row operation acts uniformly across all `n + 1` columns.
pub struct Tableau {
    grid: Grid,
}

impl View for Tableau {
    type V = Seq<Seq<i32>>;

    closed spec fn view(&self) -> Seq<Seq<i32>> {
        grid_seq(self.grid)
    }
}

/// One row with every entry multiplied by `s` (the product is truncated to
/// `i32`; the operations below require the products to fit).
pub open spec fn mult_row_spec(r: Seq<i32>, s: i32) -> Seq<i32> {
    Seq::new(r.len(), |j: int| ((r[j] as int) * (s as int)) as i32)
}

/// One row with every entry divided (truncating, as machine division does)
/// by `s`.
pub open spec fn div_row_spec(r: Seq<i32>, s: i32) -> Seq<i32> {
    Seq::new(r.len(), |j: int| crate::arith::tdiv(r[j] as int, s as int) as i32)
}

/// `s` divides every entry of the row exactly: the condition under which
/// dividing the row by `s` loses nothing to truncation.
pub open spec fn div_exact_all(r: Seq<i32>, s: i32) -> bool {
    forall|j: int| 0 <= j < r.len() ==> crate::arith::divides(s as int, #[trigger] (r[j] as int))
}

/// The destination row after adding `s` copies of the source row, column by
/// column.
pub open spec fn add_row_spec(src: Seq<i32>, dst: Seq<i32>, s: i32) -> Seq<i32> {
    Seq::new(dst.len(), |j: int| ((dst[j] as int) + (src[j] as int) * (s as int)) as i32)
}

/// The grid with rows `r1` and `r2` exchanged.
pub open spec fn swap_spec(g: Seq<Seq<i32>>, r1: int, r2: int) -> Seq<Seq<i32>> {
    g.update(r1, g[r2]).update(r2, g[r1])
}

impl Tableau {
    /// Well-formed: an admissible number of rows (at least one, within the
    /// machine size bound), and every row exactly one entry longer than the
    /// number of rows.
    pub open spec fn wf(self) -> bool {
        &&& grid_size_ok(self@.len() as int)
        &&& forall|i: int| 0 <= i < self@.len() ==> (#[trigger] self@[i]).len() == self@.len() + 1
    }

    /// A fresh `n` by `n + 1` grid with every cell zero.  Any `n >= 1` whose
    /// grid fits the machine is accepted.
    pub fn new(n: usize) -> (t: Tableau)
        requires
            grid_size_ok(n as int),
        ensures
            t.wf(),
            t@.len() == n,
            forall|i: int, j: int| 0 <= i < n && 0 <= j < n + 1 ==> t@[i][j] == 0i32,
    {
        proof {
            lemma_size_ok_bound(n as int);
        }
        Tableau { grid: grid_new(n, n + 1) }
    }

    /// The number of rows `n`.
    pub fn rows(&self) -> (n: usize)
        ensures
            n == self@.len(),
    {
        grid_nrows(&self.grid)
    }

    /// The cell at row `i`, column `j`.
    pub fn get(&self, i: usize, j: usize) -> (v: i32)
        requires
            i < self@.len(),
            j < self@[i as int].len(),
        ensures
            v == self@[i as int][j as int],
    {
        grid_get(&self.grid, i, j)
    }

    /// An independent copy of the tableau, cell for cell.
    pub fn duplicate(&self) -> (t: Tableau)
        ensures
            t@ == self@,
    {
        Tableau { grid: crate::grid::grid_clone(&self.grid) }
    }

    /// Overwrites one cell, leaving every other cell in place.
    pub fn set(&mut self, i: usize, j: usize, v: i32)
        requires
            old(self).wf(),
            i < old(self)@.len(),
            j < old(self)@[i as int].len(),
        ensures
            final(self).wf(),
            final(self)@ == old(self)@.update(
                i as int,
                old(self)@[i as int].update(j as int, v),
            ),
    {
        grid_set(&mut self.grid, i, j, v);
    }

    /// The row index itself when it is within `[0, n)`, and the
    /// out-of-bounds error otherwise.  Every mutating operation routes its
    /// indices through this check before touching storage.
    pub fn checked_row_idx(&self, row: usize) -> (r: Result<usize, TabError>)
        requires
            self.wf(),
        ensures
            row < self@.len() ==> r == Ok::<usize, TabError>(row),
            row >= self@.len() ==> r == Err::<usize, TabError>(TabError::IndexOutOfBounds),
    {
        if row > self.rows() - 1 {
            Err(TabError::IndexOutOfBounds)
        } else {
            Ok(row)
        }
    }

    /// A copy of one row as a vector.
    fn row_vec(&self, row: usize) -> (v: Vec<i32>)
        requires
            self.wf(),
            row < self@.len(),
        ensures
            v@ == self@[row as int],
    {
        proof {
            lemma_size_ok_bound(self@.len() as int);
        }
        let m: usize = self.rows() + 1;
        let mut v: Vec<i32> = Vec::new();
        let mut j: usize = 0;
        while j < m
            invariant
                self.wf(),
                row < self@.len(),
                m == self@.len() + 1,
                0 <= j <= m,
                v@.len() == j,
                forall|c: int| 0 <= c < j ==> v@[c] == self@[row as int][c],
            decreases m - j,
        {
            v.push(grid_get(&self.grid, row, j));
            j += 1;
        }
        proof {
            assert(v@ =~= self@[row as int]);
        }
        v
    }

    /// Overwrites one row with the given values.
    fn write_row(&mut self, row: usize, v: &Vec<i32>)
        requires
            old(self).wf(),
            row < old(self)@.len(),
            v@.len() == old(self)@.len() + 1,
        ensures
            final(self).wf(),
            final(self)@ == old(self)@.update(row as int, v@),
    {
        let m: usize = v.len();
        let mut j: usize = 0;
        while j < m
            invariant
                0 <= j <= m,
                m == v@.len(),
                old(self).wf(),
                row < old(self)@.len(),
                v@.len() == old(self)@.len() + 1,
                self@.len() == old(self)@.len(),
                forall|i: int| 0 <= i < self@.len() && i != row ==> self@[i] == old(self)@[i],
                self@[row as int].len() == old(self)@[row as int].len(),
                forall|c: int| 0 <= c < j ==> self@[row as int][c] == v@[c],
                forall|c: int| j <= c < v@.len() ==> self@[row as int][c] == old(
                    self,
                )@[row as int][c],
            decreases m - j,
        {
            grid_set(&mut self.grid, row, j, v[j]);
            j += 1;
        }
        proof {
            assert(self@[row as int] =~= v@);
            assert(self@ =~= old(self)@.update(row as int, v@));
        }
    }

    /// Exchanges the full contents of two rows.  Both indices are validated;
    /// swapping a row with itself is a no-op that still reports success.
    pub fn swap_rows(&mut self, r1: usize, r2: usize) -> (res: Result<(), TabError>)
        requires
            old(self).wf(),
        ensures
            final(self).wf(),
            r1 < old(self)@.len() && r2 < old(self)@.len() ==> res == Ok::<(), TabError>(())
                && final(self)@ == swap_spec(old(self)@, r1 as int, r2 as int),
            !(r1 < old(self)@.len() && r2 < old(self)@.len()) ==> res == Err::<(), TabError>(
                TabError::IndexOutOfBounds,
            ) && final(self)@ == old(self)@,
    {
        let r1 = match self.checked_row_idx(r1) {
            Ok(i) => i,
            Err(e) => {
                return Err(e);
            },
        };
        let r2 = match self.checked_row_idx(r2) {
            Ok(i) => i,
            Err(e) => {
                return Err(e);
            },
        };
        let row1: Vec<i32> = self.row_vec(r1);
        let row2: Vec<i32> = self.row_vec(r2);
        self.write_row(r1, &row2);
        self.write_row(r2, &row1);
        Ok(())
    }

    /// Multiplies every cell of one row by `scalar` in place.  Any scalar is
    /// permitted, including zero and negative values; the products must fit
    /// in an `i32`.
    pub fn mult_row(&mut self, row: usize, mult: i32) -> (res: Result<(), TabError>)
        requires
            old(self).wf(),
            row < old(self)@.len() ==> forall|j: int|
                0 <= j < old(self)@[row as int].len() ==> i32::MIN <= ((
                #[trigger] old(self)@[row as int][j]) as int) * (mult as int) <= i32::MAX,
        ensures
            final(self).wf(),
            row < old(self)@.len() ==> res == Ok::<(), TabError>(()) && final(self)@ == old(
                self,
            )@.update(row as int, mult_row_spec(old(self)@[row as int], mult)),
            row >= old(self)@.len() ==> res == Err::<(), TabError>(TabError::IndexOutOfBounds)
                && final(self)@ == old(self)@,
    {
        let row = match self.checked_row_idx(row) {
            Ok(i) => i,
            Err(e) => {
                return Err(e);
            },
        };
        proof {
            lemma_size_ok_bound(self@.len() as int);
        }
        let m: usize = self.rows() + 1;
        let mut j: usize = 0;
        while j < m
            invariant
                0 <= j <= m,
                old(self).wf(),
                row < old(self)@.len(),
                m == old(self)@.len() + 1,
                forall|c: int|
                    0 <= c < m ==> i32::MIN <= ((#[trigger] old(self)@[row as int][c]) as int) * (
                    mult as int) <= i32::MAX,
                self@.len() == old(self)@.len(),
                forall|i: int| 0 <= i < self@.len() && i != row ==> self@[i] == old(self)@[i],
                self@[row as int].len() == old(self)@[row as int].len(),
                forall|c: int|
                    0 <= c < j ==> self@[row as int][c] == mult_row_spec(
                        old(self)@[row as int],
                        mult,
                    )[c],
                forall|c: int|
                    j <= c < m ==> self@[row as int][c] == old(self)@[row as int][c],
            decreases m - j,
        {
            let v: i32 = grid_get(&self.grid, row, j);
            grid_set(&mut self.grid, row, j, v * mult);
            j += 1;
        }
        proof {
            assert(self@[row as int] =~= mult_row_spec(old(self)@[row as int], mult));
            assert(self@ =~= old(self)@.update(
                row as int,
                mult_row_spec(old(self)@[row as int], mult),
            ));
        }
        Ok(())
    }

    /// Divides every cell of one row by `scalar`, but only when `scalar`
    /// belongs to the divisor set of the reduced gcd of the row (the gcd of
    /// its strictly positive entries) and divides every cell exactly; this
    /// is the engine's core guarantee, that an accepted division never loses
    /// a remainder to truncation.  Otherwise nothing is mutated and the
    /// non-exact-division error is reported.  A valid row must hold at least
    /// one strictly positive entry, as the reduced gcd is undefined
    /// otherwise.
    pub fn div_row(&mut self, row: usize, mult: i32) -> (res: Result<(), TabError>)
        requires
            old(self).wf(),
            row < old(self)@.len() ==> exists|j: int|
                0 <= j < old(self)@[row as int].len() && old(self)@[row as int][j] > 0,
        ensures
            final(self).wf(),
            row >= old(self)@.len() ==> res == Err::<(), TabError>(TabError::IndexOutOfBounds)
                && final(self)@ == old(self)@,
            row < old(self)@.len() && is_divisor(
                gcd_fold(positives(old(self)@[row as int])),
                mult as int,
            ) && div_exact_all(old(self)@[row as int], mult) ==> res == Ok::<(), TabError>(())
                && final(self)@ == old(self)@.update(
                row as int,
                div_row_spec(old(self)@[row as int], mult),
            ) && (forall|j: int|
                0 <= j < old(self)@[row as int].len() ==> ((
                #[trigger] final(self)@[row as int][j]) as int) * (mult as int) == old(
                self,
            )@[row as int][j] as int),
            row < old(self)@.len() && !(is_divisor(
                gcd_fold(positives(old(self)@[row as int])),
                mult as int,
            ) && div_exact_all(old(self)@[row as int], mult)) ==> res == Err::<(), TabError>(
                TabError::NonExactDivision,
            ) && final(self)@ == old(self)@,
    {
        let row = match self.checked_row_idx(row) {
            Ok(i) => i,
            Err(e) => {
                return Err(e);
            },
        };
        let v: Vec<i32> = self.row_vec(row);
        let g: i32 = gcd_many(&v);
        let fact: HashSet<i32> = factors(g);
        match fact.contains(&mult) {
            true => {
                let mut all_exact: bool = true;
                let mut k: usize = 0;
                while k < v.len()
                    invariant
                        0 <= k <= v@.len(),
                        mult >= 1,
                        all_exact <==> (forall|c: int|
                            0 <= c < k ==> crate::arith::divides(
                                mult as int,
                                #[trigger] (v@[c] as int),
                            )),
                    decreases v@.len() - k,
                {
                    let c: i32 = v[k];
                    let r: i32 = c.checked_rem(mult).unwrap();
                    proof {
                        crate::arith::lemma_trem_zero_iff_divides(c as int, mult as int);
                    }
                    if r != 0 {
                        all_exact = false;
                    }
                    k += 1;
                }
                if !all_exact {
                    return Err(TabError::NonExactDivision);
                }
                proof {
                    assert(div_exact_all(old(self)@[row as int], mult));
                    lemma_size_ok_bound(self@.len() as int);
                }
                let m: usize = self.rows() + 1;
                let mut j: usize = 0;
                while j < m
                    invariant
                        0 <= j <= m,
                        old(self).wf(),
                        row < old(self)@.len(),
                        m == old(self)@.len() + 1,
                        mult >= 1,
                        self@.len() == old(self)@.len(),
                        forall|i: int|
                            0 <= i < self@.len() && i != row ==> self@[i] == old(self)@[i],
                        self@[row as int].len() == old(self)@[row as int].len(),
                        forall|c: int|
                            0 <= c < j ==> self@[row as int][c] == div_row_spec(
                                old(self)@[row as int],
                                mult,
                            )[c],
                        forall|c: int|
                            j <= c < m ==> self@[row as int][c] == old(self)@[row as int][c],
                    decreases m - j,
                {
                    let v: i32 = grid_get(&self.grid, row, j);
                    proof {
                        crate::arith::lemma_tdiv_shrinks(v as int, mult as int);
                    }
                    let q: i32 = v.checked_div(mult).unwrap();
                    grid_set(&mut self.grid, row, j, q);
                    j += 1;
                }
                proof {
                    assert(self@[row as int] =~= div_row_spec(old(self)@[row as int], mult));
                    assert(self@ =~= old(self)@.update(
                        row as int,
                        div_row_spec(old(self)@[row as int], mult),
                    ));
                    assert forall|c: int| 0 <= c < old(self)@[row as int].len() implies ((
                    #[trigger] self@[row as int][c]) as int) * (mult as int) == old(
                    self,
                    )@[row as int][c] as int by {
                        let cell = old(self)@[row as int][c] as int;
                        crate::arith::lemma_trem_zero_iff_divides(cell, mult as int);
                        crate::arith::lemma_tdiv_shrinks(cell, mult as int);
                        assert(crate::arith::tdiv(cell, mult as int) * (mult as int) == (
                        mult as int) * crate::arith::tdiv(cell, mult as int)) by (nonlinear_arith);
                    }
                }
                Ok(())
            },
            false => Err(TabError::NonExactDivision),
        }
    }

    /// Adds `scalar` copies of the source row to the destination row, column
    /// by column.  The source row is snapshotted first, so the operation is
    /// well defined even when the two rows coincide.  Each product and each
    /// sum must fit in an `i32`.
    #[verifier::loop_isolation(false)]
    pub fn add_row_mult_to_row(&mut self, src_row: usize, dst_row: usize, mult: i32) -> (res:
        Result<(), TabError>)
        requires
            old(self).wf(),
            src_row < old(self)@.len() && dst_row < old(self)@.len() ==> forall|j: int|
                0 <= j < old(self)@[dst_row as int].len() ==> (i32::MIN <= ((
                #[trigger] old(self)@[src_row as int][j]) as int) * (mult as int) <= i32::MAX) && (
                i32::MIN <= ((#[trigger] old(self)@[dst_row as int][j]) as int) + (
                old(self)@[src_row as int][j] as int) * (mult as int) <= i32::MAX),
        ensures
            final(self).wf(),
            src_row < old(self)@.len() && dst_row < old(self)@.len() ==> res == Ok::<
                (),
                TabError,
            >(()) && final(self)@ == old(self)@.update(
                dst_row as int,
                add_row_spec(old(self)@[src_row as int], old(self)@[dst_row as int], mult),
            ),
            !(src_row < old(self)@.len() && dst_row < old(self)@.len()) ==> res == Err::<
                (),
                TabError,
            >(TabError::IndexOutOfBounds) && final(self)@ == old(self)@,
    {
        let src_r: usize = match self.checked_row_idx(src_row) {
            Ok(i) => i,
            Err(e) => {
                return Err(e);
            },
        };
        let dst_r: usize = match self.checked_row_idx(dst_row) {
            Ok(i) => i,
            Err(e) => {
                return Err(e);
            },
        };
        proof {
            assert(src_r == src_row && dst_r == dst_row);
        }
        let src: Vec<i32> = self.row_vec(src_r);
        proof {
            lemma_size_ok_bound(self@.len() as int);
        }
        let m: usize = self.rows() + 1;
        proof {
            assert(old(self)@[dst_row as int].len() == m);
            assert(old(self)@[src_row as int].len() == m);
        }
        let mut j: usize = 0;
        while j < m
            invariant
                0 <= j <= m,
                old(self).wf(),
                src_row < old(self)@.len(),
                dst_row < old(self)@.len(),
                m == old(self)@.len() + 1,
                src@ == old(self)@[src_row as int],
                self@.len() == old(self)@.len(),
                forall|i: int| 0 <= i < self@.len() && i != dst_row ==> self@[i] == old(self)@[i],
                self@[dst_row as int].len() == old(self)@[dst_row as int].len(),
                forall|c: int|
                    0 <= c < j ==> self@[dst_row as int][c] == add_row_spec(
                        old(self)@[src_row as int],
                        old(self)@[dst_row as int],
                        mult,
                    )[c],
                forall|c: int|
                    j <= c < m ==> self@[dst_row as int][c] == old(self)@[dst_row as int][c],
            decreases m - j,
        {
            let d: i32 = grid_get(&self.grid, dst_r, j);
            let s: i32 = src[j];
            proof {
                let sv = old(self)@[src_row as int][j as int];
                let dv = old(self)@[dst_row as int][j as int];
                assert(0 <= j < old(self)@[dst_row as int].len());
            }
            grid_set(&mut self.grid, dst_r, j, d + s * mult);
            j += 1;
        }
        proof {
            assert(self@[dst_row as int] =~= add_row_spec(
                old(self)@[src_row as int],
                old(self)@[dst_row as int],
                mult,
            ));
            assert(self@ =~= old(self)@.update(
                dst_row as int,
                add_row_spec(old(self)@[src_row as int], old(self)@[dst_row as int], mult),
            ));
        }
        Ok(())
    }

    /// Parses a tableau literal: a flat sequence of signed integers
    /// separated by `,` or `;`, written row-major into an `n` by `n + 1`
    /// grid.  The row count is found by searching candidates upward from 2;
    /// a token count that falls short of the current candidate's target can
    /// match no larger candidate either and is rejected, as is any count
    /// that would need more than 100 rows.
    pub fn from_str(s: &str) -> (r: Result<Tableau, TabError>)
        ensures
            (match r {
                Ok(t) => {
                    &&& all_tokens_valid(s@)
                    &&& t.wf()
                    &&& 2 <= t@.len() <= 100
                    &&& split_tokens(s@).len() == t@.len() * (t@.len() + 1)
                    &&& forall|a: int, b: int|
                        0 <= a < t@.len() && 0 <= b < t@.len() + 1 ==> (#[trigger] t@[a][b]) as int
                            == token_val(split_tokens(s@)[a * (t@.len() + 1) + b])
                },
                Err(e) => {
                    &&& (e == TabError::ParseToken <==> !all_tokens_valid(s@))
                    &&& (e == TabError::ParseToken || e == TabError::ParseDimension)
                    &&& (e == TabError::ParseDimension ==> forall|m: int|
                        2 <= m <= 100 ==> split_tokens(s@).len() != #[trigger] (m * (m + 1)))
                },
            }),
    {
        let vals: Vec<i32> = match crate::parse::parse_values(s) {
            Ok(v) => v,
            Err(e) => {
                return Err(e);
            },
        };
        let count: usize = vals.len();
        let mut n: usize = 2;
        let mut ts: usize = 6;
        while n <= 100 && count > ts
            invariant
                2 <= n <= 101,
                ts == n * (n as int + 1),
                count == vals@.len(),
                forall|m: int| 2 <= m < n ==> count > #[trigger] (m * (m + 1)),
            decreases 101 - n,
        {
            n += 1;
            proof {
                assert(n * (n as int + 1) <= 10302) by (nonlinear_arith)
                    requires
                        n <= 101,
                ;
            }
            ts = n * (n + 1);
        }
        if n > 100 || count < ts {
            proof {
                assert forall|m: int| 2 <= m <= 100 implies count != #[trigger] (m * (m + 1)) by {
                    if m >= n {
                        assert(m * (m + 1) >= n * (n as int + 1)) by (nonlinear_arith)
                            requires
                                2 <= n <= m,
                        ;
                    }
                }
            }
            return Err(TabError::ParseDimension);
        }
        proof {
            assert(grid_size_ok(n as int)) by (nonlinear_arith)
                requires
                    2 <= n <= 100,
            ;
        }
        let mut t: Tableau = Tableau::new(n);
        let mut i: usize = 0;
        while i < n
            invariant
                2 <= n <= 100,
                t.wf(),
                t@.len() == n,
                count == vals@.len(),
                count == n * (n + 1),
                0 <= i <= n,
                forall|a: int, b: int|
                    0 <= a < i && 0 <= b < n + 1 ==> (#[trigger] t@[a][b]) == vals@[a * (
                    n as int + 1) + b],
            decreases n - i,
        {
            let mut j: usize = 0;
            while j < n + 1
                invariant
                    2 <= n <= 100,
                    t.wf(),
                    t@.len() == n,
                    count == vals@.len(),
                    count == n * (n + 1),
                    0 <= i < n,
                    0 <= j <= n + 1,
                    forall|a: int, b: int|
                        0 <= a < i && 0 <= b < n + 1 ==> (#[trigger] t@[a][b]) == vals@[a * (
                        n as int + 1) + b],
                    forall|b: int|
                        0 <= b < j ==> (#[trigger] t@[i as int][b]) == vals@[i as int * (
                        n as int + 1) + b],
                decreases n + 1 - j,
            {
                proof {
                    assert((i as int) * (n as int + 1) + j < n * (n as int + 1)) by (
                    nonlinear_arith)
                        requires
                            0 <= i < n,
                            0 <= j < n as int + 1,
                    ;
                    assert((i as int) * (n as int + 1) >= 0) by (nonlinear_arith)
                        requires
                            0 <= i,
                            n >= 2,
                    ;
                }
                let k: usize = i * (n + 1) + j;
                grid_set(&mut t.grid, i, j, vals[k]);
                j += 1;
            }
            i += 1;
        }
        proof {
            assert forall|a: int, b: int|
                0 <= a < t@.len() && 0 <= b < t@.len() + 1 implies (#[trigger] t@[a][b]) as int
                == token_val(split_tokens(s@)[a * (t@.len() + 1) + b]) by {
                assert((a * (n as int + 1) + b) < n * (n as int + 1)) by (nonlinear_arith)
                    requires
                        0 <= a < n,
                        0 <= b < n as int + 1,
                ;
                assert((a * (n as int + 1)) >= 0) by (nonlinear_arith)
                    requires
                        0 <= a,
                        n >= 2,
                ;
            }
        }
        Ok(t)
    }

    /// Whether a row holds at least one strictly positive entry — the
    /// condition under which its reduced gcd (and so `div_row` and
    /// `row_divisors`) is defined.
    pub fn row_has_positive(&self, row: usize) -> (b: bool)
        requires
            self.wf(),
            row < self@.len(),
        ensures
            b <==> exists|j: int| 0 <= j < self@[row as int].len() && self@[row as int][j] > 0,
    {
        proof {
            lemma_size_ok_bound(self@.len() as int);
        }
        let m: usize = self.rows() + 1;
        let mut j: usize = 0;
        let mut found: bool = false;
        while j < m
            invariant
                0 <= j <= m,
                self.wf(),
                row < self@.len(),
                m == self@.len() + 1,
                found <==> exists|c: int| 0 <= c < j && self@[row as int][c] > 0,
            decreases m - j,
        {
            if grid_get(&self.grid, row, j) > 0 {
                found = true;
            }
            j += 1;
        }
        found
    }

    /// The diagnostic view of one row: the divisor set of the reduced gcd of
    /// its entries.  Purely informational; never mutates state.  The row
    /// must hold a strictly positive entry.
    pub fn row_divisors(&self, row: usize) -> (r: HashSet<i32>)
        requires
            self.wf(),
            row < self@.len(),
            exists|j: int| 0 <= j < self@[row as int].len() && self@[row as int][j] > 0,
        ensures
            forall|d: i32|
                r@.contains(d) <==> is_divisor(
                    gcd_fold(positives(self@[row as int])),
                    d as int,
                ),
    {
        let v: Vec<i32> = self.row_vec(row);
        let g: i32 = gcd_many(&v);
        factors(g)
    }
}

/// Law: adding zero copies of any row to a row of the same width leaves it
/// unchanged.
pub proof fn lemma_add_row_zero(src: Seq<i32>, dst: Seq<i32>)
    requires
        src.len() == dst.len(),
    ensures
        add_row_spec(src, dst, 0i32) == dst,
{
    assert(add_row_spec(src, dst, 0i32) =~= dst);
}

/// Law: a division the engine accepts is undone exactly by multiplying with
/// the same scalar.  The hypotheses are precisely `div_row`'s acceptance
/// condition: the scalar lies in the divisor set of the row's reduced gcd
/// and divides every entry.
pub proof fn lemma_div_then_mult_row(r: Seq<i32>, s: i32)
    requires
        exists|j: int| 0 <= j < r.len() && r[j] > 0,
        is_divisor(gcd_fold(positives(r)), s as int),
        div_exact_all(r, s),
    ensures
        mult_row_spec(div_row_spec(r, s), s) == r,
{
    assert forall|j: int| 0 <= j < r.len() implies mult_row_spec(div_row_spec(r, s), s)[j]
        == r[j] by {
        crate::arith::lemma_trem_zero_iff_divides(r[j] as int, s as int);
        crate::arith::lemma_tdiv_shrinks(r[j] as int, s as int);
        let q = crate::arith::tdiv(r[j] as int, s as int);
        assert(q * (s as int) == (s as int) * q) by (nonlinear_arith);
    }
    assert(mult_row_spec(div_row_spec(r, s), s) =~= r);
}

/// Law: swapping a row with itself leaves the grid unchanged.
pub proof fn lemma_swap_self(g: Seq<Seq<i32>>, r: int)
    requires
        0 <= r < g.len(),
    ensures
        swap_spec(g, r, r) == g,
{
    assert(swap_spec(g, r, r) =~= g);
}

/// Law: swapping the same two rows twice restores the original grid.
pub proof fn lemma_swap_twice(g: Seq<Seq<i32>>, r1: int, r2: int)
    requires
        0 <= r1 < g.len(),
        0 <= r2 < g.len(),
    ensures
        swap_spec(swap_spec(g, r1, r2), r1, r2) == g,
{
    assert(swap_spec(swap_spec(g, r1, r2), r1, r2) =~= g);
}

} // verus!
