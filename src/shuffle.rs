//! The full-grid randomizer: a cyclic solved grid, shuffled by swapping rows
//! and columns within their bands.
use vstd::prelude::*;
use rand::Rng;
use crate::grid::Sudoku;
use crate::model::{
    below9, cand, complete, decided, flag_index, lemma_flag_index, lemma_grid_ext, peers, sole, valid, DIMENSION,
    DIMENSIONPWR2,
};

verus! {

/// Digit (zero-based) of the cyclic solved grid at `(r, c)`: row `r` is the
/// sequence `1..9` shifted by three places per row, then rotated inside each
/// group of three by one place per band.
pub open spec fn identity_digit(r: int, c: int) -> int {
    let val = (c + 3 * r) % 9;
    3 * (val / 3) + (val + r / 3) % 3
}

/// The row or column that `i` is exchanged with when shifted by `shift`
/// inside its group of three.
pub open spec fn partner(i: int, shift: int) -> int {
    3 * (i / 3) + (i % 3 + shift % 3) % 3
}

/// Position `x` after exchanging `a` and `b`.
pub open spec fn exchanged(x: int, a: int, b: int) -> int {
    if x == a {
        b
    } else if x == b {
        a
    } else {
        x
    }
}

/// The cyclic grid's digit from the band and position of the row and column.
proof fn lemma_identity_parts(r: int, c: int)
    requires
        below9(r),
        below9(c),
    ensures
        identity_digit(r, c) == 3 * ((c / 3 + r % 3) % 3) + (c % 3 + r / 3) % 3,
{
    let val = (c + 3 * r) % 9;
    assert(val == 3 * ((c / 3 + r % 3) % 3) + c % 3);
    assert(val / 3 == (c / 3 + r % 3) % 3);
    assert((val + r / 3) % 3 == (c % 3 + r / 3) % 3);
}

/// Two peers of the cyclic grid hold different digits.
pub proof fn lemma_identity_distinct(r1: int, c1: int, r2: int, c2: int)
    requires
        below9(r1),
        below9(c1),
        below9(r2),
        below9(c2),
        peers(r1, c1, r2, c2),
    ensures
        identity_digit(r1, c1) != identity_digit(r2, c2),
        below9(identity_digit(r1, c1)),
{
    lemma_identity_parts(r1, c1);
    lemma_identity_parts(r2, c2);
    lemma_parts_distinct(r1 / 3, r1 % 3, c1 / 3, c1 % 3, r2 / 3, r2 % 3, c2 / 3, c2 % 3);
}

/// The cyclic grid's digits, written over the band and position of a row and
/// a column, differ for two peers.
proof fn lemma_parts_distinct(b1: int, i1: int, m1: int, q1: int, b2: int, i2: int, m2: int, q2: int)
    requires
        0 <= b1 < 3 && 0 <= i1 < 3 && 0 <= m1 < 3 && 0 <= q1 < 3,
        0 <= b2 < 3 && 0 <= i2 < 3 && 0 <= m2 < 3 && 0 <= q2 < 3,
        !(b1 == b2 && i1 == i2 && m1 == m2 && q1 == q2),
        (b1 == b2 && i1 == i2) || (m1 == m2 && q1 == q2) || (b1 == b2 && m1 == m2),
    ensures
        3 * ((m1 + i1) % 3) + (q1 + b1) % 3 != 3 * ((m2 + i2) % 3) + (q2 + b2) % 3,
        0 <= 3 * ((m1 + i1) % 3) + (q1 + b1) % 3 < 9,
{
    let (h1, l1) = ((m1 + i1) % 3, (q1 + b1) % 3);
    let (h2, l2) = ((m2 + i2) % 3, (q2 + b2) % 3);
    if 3 * h1 + l1 == 3 * h2 + l2 {
        assert(h1 == h2 && l1 == l2);
        if b1 == b2 && i1 == i2 {
            lemma_mod3_cancel(m1, m2, i1);
            lemma_mod3_cancel(q1, q2, b1);
        } else if m1 == m2 && q1 == q2 {
            lemma_mod3_cancel(i1, i2, m1);
            lemma_mod3_cancel(b1, b2, q1);
        } else {
            lemma_mod3_cancel(i1, i2, m1);
            lemma_mod3_cancel(q1, q2, b1);
        }
    }
}

/// `g` with row `r` exchanged for the row `shift` places further in its band.
pub open spec fn row_swapped(g: Seq<bool>, r: int, shift: int) -> Seq<bool> {
    Seq::new(729, |i: int| g[flag_index(exchanged(i / 81, r, partner(r, shift)), (i / 9) % 9, i % 9)])
}

/// `g` with column `c` exchanged for the column `shift` places further in its stack.
pub open spec fn column_swapped(g: Seq<bool>, c: int, shift: int) -> Seq<bool> {
    Seq::new(729, |i: int| g[flag_index(i / 81, exchanged((i / 9) % 9, c, partner(c, shift)), i % 9)])
}

/// `g` after one round per draw `(row, row shift, column, column shift)`:
/// the row exchange, then the column exchange.
pub open spec fn shaken(g: Seq<bool>, draws: Seq<(usize, usize, usize, usize)>) -> Seq<bool>
    decreases draws.len(),
{
    if draws.len() == 0 {
        g
    } else {
        let d = draws.last();
        column_swapped(row_swapped(shaken(g, draws.drop_last()), d.0 as int, d.1 as int), d.2 as int, d.3 as int)
    }
}

/// Each draw names a row and a column, each with a shift of one or two.
pub open spec fn draws_ok(draws: Seq<(usize, usize, usize, usize)>) -> bool {
    forall|i: int| 0 <= i < draws.len() ==> {
        let d = #[trigger] draws[i];
        &&& d.0 < 9
        &&& 1 <= d.1 <= 2
        &&& d.2 < 9
        &&& 1 <= d.3 <= 2
    }
}

/// `p` maps each of the nine rows (or columns) to a distinct one of the
/// same band (or stack).
pub open spec fn band_perm(p: Seq<int>) -> bool {
    &&& p.len() == 9
    &&& forall|i: int| below9(i) ==> below9(#[trigger] p[i]) && p[i] / 3 == i / 3
    &&& forall|i: int, j: int| below9(i) && below9(j) && i != j ==> #[trigger] p[i] != #[trigger] p[j]
}

/// Cell `(r, c)` of `b` is cell `(rp[r], cp[c])` of `a`.
pub open spec fn rearranged(a: Seq<bool>, b: Seq<bool>, rp: Seq<int>, cp: Seq<int>) -> bool {
    forall|r: int, c: int, v: int|
        below9(r) && below9(c) && below9(v) ==> #[trigger] cand(b, r, c, v) == cand(a, rp[r], cp[c], v)
}

/// `b` is `a` with its rows permuted within bands and its columns within stacks.
pub open spec fn shuffle_of(a: Seq<bool>, b: Seq<bool>) -> bool {
    exists|rp: Seq<int>, cp: Seq<int>| band_perm(rp) && band_perm(cp) && #[trigger] rearranged(a, b, rp, cp)
}

/// The cyclic solved grid.
pub open spec fn identity_grid() -> Seq<bool> {
    Seq::new(729, |i: int| i % 9 == identity_digit(i / 81, (i / 9) % 9))
}

/// Permuting rows within bands and columns within stacks keeps a grid solved
/// and valid.
pub proof fn lemma_shuffle_keeps_valid(a: Seq<bool>, b: Seq<bool>)
    requires
        shuffle_of(a, b),
    ensures
        complete(a) ==> complete(b),
        valid(a) ==> valid(b),
{
    let (rp, cp) = choose|rp: Seq<int>, cp: Seq<int>| band_perm(rp) && band_perm(cp) && #[trigger] rearranged(a, b, rp, cp);
    assert forall|r: int, c: int, v: int| below9(r) && below9(c) && below9(v) implies #[trigger] sole(b, r, c, v)
        == sole(a, rp[r], cp[c], v) by {
        let (r2, c2) = (rp[r], cp[c]);
        assert(below9(r2) && below9(c2));
        assert forall|w: int| below9(w) implies #[trigger] cand(b, r, c, w) == cand(a, r2, c2, w) by {}
        if sole(b, r, c, v) {
            assert forall|w: int| below9(w) && w != v implies !#[trigger] cand(a, r2, c2, w) by {
                assert(!cand(b, r, c, w));
            }
        }
        if sole(a, r2, c2, v) {
            assert forall|w: int| below9(w) && w != v implies !#[trigger] cand(b, r, c, w) by {
                assert(!cand(a, r2, c2, w));
            }
        }
    }
    if complete(a) {
        assert forall|r: int, c: int| below9(r) && below9(c) implies #[trigger] decided(b, r, c) by {
            assert(below9(rp[r]) && below9(cp[c]));
            assert(decided(a, rp[r], cp[c]));
            let v = choose|v: int| below9(v) && sole(a, rp[r], cp[c], v);
            assert(sole(b, r, c, v));
        }
    }
    if valid(a) {
        assert forall|r1: int, c1: int, r2: int, c2: int, v: int|
            below9(r1) && below9(c1) && below9(r2) && below9(c2) && below9(v) && peers(r1, c1, r2, c2)
                implies !(#[trigger] sole(b, r1, c1, v) && #[trigger] sole(b, r2, c2, v)) by {
            assert(below9(rp[r1]) && below9(cp[c1]) && below9(rp[r2]) && below9(cp[c2]));
            assert(r1 != r2 ==> rp[r1] != rp[r2]);
            assert(c1 != c2 ==> cp[c1] != cp[c2]);
            assert(peers(rp[r1], cp[c1], rp[r2], cp[c2]));
            assert(sole(b, r1, c1, v) == sole(a, rp[r1], cp[c1], v));
            assert(sole(b, r2, c2, v) == sole(a, rp[r2], cp[c2], v));
        }
    }
}

/// Every grid that the randomizer can produce, the cyclic grid with rows
/// permuted within bands and columns within stacks, is solved and valid.
pub proof fn lemma_randomized_grid_valid(g: Seq<bool>)
    requires
        shuffle_of(identity_grid(), g),
    ensures
        complete(g),
        valid(g),
{
    let id = identity_grid();
    assert forall|r: int, c: int, v: int| below9(r) && below9(c) && below9(v) implies #[trigger] cand(id, r, c, v)
        == (v == identity_digit(r, c)) by {
        lemma_flag_index(r, c, v);
    }
    assert forall|r: int, c: int| below9(r) && below9(c) implies #[trigger] decided(id, r, c) by {
        lemma_identity_parts(r, c);
        assert(sole(id, r, c, identity_digit(r, c)));
    }
    assert forall|r1: int, c1: int, r2: int, c2: int, v: int|
        below9(r1) && below9(c1) && below9(r2) && below9(c2) && below9(v) && peers(r1, c1, r2, c2)
            implies !(#[trigger] sole(id, r1, c1, v) && #[trigger] sole(id, r2, c2, v)) by {
        lemma_identity_distinct(r1, c1, r2, c2);
    }
    lemma_shuffle_keeps_valid(id, g);
}

/// Relies on rand's `Rng::gen_range` on `thread_rng()`: a value in
/// `low..high` (it panics when `low >= high`).
#[verifier::external_body]
pub(crate) fn random_below(low: usize, high: usize) -> (r: usize)
    requires
        low < high,
    ensures
        low <= r < high,
{
    rand::thread_rng().gen_range(low, high)
}

impl Sudoku {
    /// The cyclic solved grid: cell `(r, c)` holds `identity_digit(r, c)`.
    pub fn identity_sudoku() -> (s: Sudoku)
        ensures
            s.wf(),
            forall|r: int, c: int, v: int|
                below9(r) && below9(c) && below9(v) ==> #[trigger] cand(s@, r, c, v) == (v == identity_digit(r, c)),
            s@ == identity_grid(),
            complete(s@),
            valid(s@),
    {
        let mut s = Sudoku::new(false);
        let mut q: usize = 0;
        while q < 81
            invariant
                q <= 81,
                s.wf(),
                forall|r: int, c: int, v: int|
                    below9(r) && below9(c) && below9(v) ==> #[trigger] cand(s@, r, c, v) == (9 * r + c < q && v
                        == identity_digit(r, c)),
            decreases 81 - q,
        {
            let r_index = q / DIMENSIONPWR2;
            let c_index = q % DIMENSIONPWR2;
            let val: usize = (c_index + DIMENSION * r_index) % DIMENSIONPWR2;
            let shift: usize = r_index / DIMENSION;
            let newval = DIMENSION * (val / DIMENSION) + (val + shift) % DIMENSION;
            proof {
                lemma_flag_index(r_index as int, c_index as int, 0);
            }
            s.set(r_index, c_index, newval);
            q = q + 1;
        }
        proof {
            let g = s@;
            assert forall|r: int, c: int| below9(r) && below9(c) implies #[trigger] decided(g, r, c) by {
                lemma_identity_parts(r, c);
                assert(sole(g, r, c, identity_digit(r, c)));
            }
            assert forall|r1: int, c1: int, r2: int, c2: int, v: int|
                below9(r1) && below9(c1) && below9(r2) && below9(c2) && below9(v) && peers(r1, c1, r2, c2)
                    implies !(#[trigger] sole(g, r1, c1, v) && #[trigger] sole(g, r2, c2, v)) by {
                lemma_identity_distinct(r1, c1, r2, c2);
            }
            let id = identity_grid();
            assert forall|r: int, c: int, v: int| below9(r) && below9(c) && below9(v) implies #[trigger] cand(g, r, c, v)
                == cand(id, r, c, v) by {
                lemma_flag_index(r, c, v);
            }
            lemma_grid_ext(g, id);
        }
        s
    }

    /// Shuffles the grid by 199 rounds of a random row exchange and a random
    /// column exchange, each within its band: whatever was drawn, the result
    /// is the grid after those 199 rounds (see `shake_with`), so its rows are
    /// permuted within bands and its columns within stacks. A solved grid
    /// stays solved and a valid grid stays valid.
    pub fn shake_randomly(&mut self)
        requires
            old(self).wf(),
        ensures
            final(self).wf(),
            exists|d: Seq<(usize, usize, usize, usize)>|
                d.len() == 199 && draws_ok(d) && #[trigger] shaken(old(self)@, d) == final(self)@,
            shuffle_of(old(self)@, final(self)@),
            complete(old(self)@) ==> complete(final(self)@),
            valid(old(self)@) ==> valid(final(self)@),
    {
        let mut draws: Vec<(usize, usize, usize, usize)> = Vec::new();
        let mut round: usize = 0;
        while round < 199
            invariant
                round <= 199,
                draws@.len() == round,
                draws_ok(draws@),
            decreases 199 - round,
        {
            let row_index = random_below(0, DIMENSIONPWR2);
            let row_shift = random_below(1, DIMENSION);
            let column_index = random_below(0, DIMENSIONPWR2);
            let column_shift = random_below(1, DIMENSION);
            draws.push((row_index, row_shift, column_index, column_shift));
            round = round + 1;
        }
        let ghost g0 = self@;
        self.shake_with(&draws);
        proof {
            assert(shaken(g0, draws@) == self@);
            lemma_shuffle_keeps_valid(g0, self@);
        }
    }

    /// Applies one round per draw `(row, row shift, column, column shift)`:
    /// `swap_row` on the row, then `swap_column` on the column.
    pub fn shake_with(&mut self, draws: &Vec<(usize, usize, usize, usize)>)
        requires
            old(self).wf(),
            draws_ok(draws@),
        ensures
            final(self).wf(),
            final(self)@ == shaken(old(self)@, draws@),
            shuffle_of(old(self)@, final(self)@),
    {
        let ghost g0 = self@;
        let ghost mut rp: Seq<int> = Seq::new(9, |i: int| i);
        let ghost mut cp: Seq<int> = Seq::new(9, |i: int| i);
        let mut i: usize = 0;
        while i < draws.len()
            invariant
                i <= draws@.len(),
                draws_ok(draws@),
                self.wf(),
                self@ == shaken(g0, draws@.take(i as int)),
                band_perm(rp),
                band_perm(cp),
                rearranged(g0, self@, rp, cp),
            decreases draws@.len() - i,
        {
            let (row_index, row_shift, column_index, column_shift) = draws[i];
            proof {
                assert(row_index < 9 && column_index < 9);
            }
            let ghost (ra, rb) = (row_index as int, partner(row_index as int, row_shift as int));
            let ghost (ca, cb) = (column_index as int, partner(column_index as int, column_shift as int));
            self.swap_row(row_index, row_shift);
            self.swap_column(column_index, column_shift);
            proof {
                assert(draws@.take(i as int + 1).drop_last() =~= draws@.take(i as int));
                assert(draws@.take(i as int + 1).last() == draws@[i as int]);
                let rp2 = Seq::new(9, |k: int| rp[exchanged(k, ra, rb)]);
                let cp2 = Seq::new(9, |k: int| cp[exchanged(k, ca, cb)]);
                assert forall|k: int| below9(k) implies below9(#[trigger] rp2[k]) && rp2[k] / 3 == k / 3 by {
                    assert(below9(exchanged(k, ra, rb)));
                }
                assert forall|k: int, j: int| below9(k) && below9(j) && k != j implies #[trigger] rp2[k] != #[trigger] rp2[j] by {
                    assert(exchanged(k, ra, rb) != exchanged(j, ra, rb));
                    assert(below9(exchanged(k, ra, rb)) && below9(exchanged(j, ra, rb)));
                }
                assert forall|k: int| below9(k) implies below9(#[trigger] cp2[k]) && cp2[k] / 3 == k / 3 by {
                    assert(below9(exchanged(k, ca, cb)));
                }
                assert forall|k: int, j: int| below9(k) && below9(j) && k != j implies #[trigger] cp2[k] != #[trigger] cp2[j] by {
                    assert(exchanged(k, ca, cb) != exchanged(j, ca, cb));
                    assert(below9(exchanged(k, ca, cb)) && below9(exchanged(j, ca, cb)));
                }
                assert forall|r: int, c: int, v: int| below9(r) && below9(c) && below9(v) implies #[trigger] cand(self@, r, c, v)
                    == cand(g0, rp2[r], cp2[c], v) by {
                    assert(below9(exchanged(r, ra, rb)) && below9(exchanged(c, ca, cb)));
                }
                rp = rp2;
                cp = cp2;
            }
            i = i + 1;
        }
        proof {
            assert(draws@.take(draws@.len() as int) =~= draws@);
            assert(rearranged(g0, self@, rp, cp));
        }
    }

    /// Exchanges row `r_index` with the row `shift` places further in its
    /// band of three (cyclically).
    pub fn swap_row(&mut self, r_index: usize, shift: usize)
        requires
            old(self).wf(),
            r_index < 9,
        ensures
            final(self).wf(),
            forall|r: int, c: int, v: int|
                below9(r) && below9(c) && below9(v) ==> #[trigger] cand(final(self)@, r, c, v) == cand(
                    old(self)@,
                    exchanged(r, r_index as int, partner(r_index as int, shift as int)),
                    c,
                    v,
                ),
            final(self)@ == row_swapped(old(self)@, r_index as int, shift as int),
    {
        let ghost g0 = self@;
        let rb_index = DIMENSION * (r_index / DIMENSION) + (r_index % DIMENSION + shift % DIMENSION) % DIMENSION;
        let ghost (a, b) = (r_index as int, rb_index as int);
        let mut j: usize = 0;
        while j < 81
            invariant
                j <= 81,
                r_index < 9,
                rb_index < 9,
                a == r_index as int,
                b == rb_index as int,
                self.wf(),
                forall|r: int, c: int, v: int|
                    below9(r) && below9(c) && below9(v) ==> #[trigger] cand(self@, r, c, v) == if 9 * c + v < j {
                        cand(g0, exchanged(r, a, b), c, v)
                    } else {
                        cand(g0, r, c, v)
                    },
            decreases 81 - j,
        {
            let ghost before = self@;
            proof {
                lemma_flag_index(a, j as int / 9, j as int % 9);
                lemma_flag_index(b, j as int / 9, j as int % 9);
            }
            self.swap_flags(81 * r_index + j, 81 * rb_index + j);
            proof {
                assert forall|r: int, c: int, v: int| below9(r) && below9(c) && below9(v) implies #[trigger] cand(self@, r, c, v)
                    == if 9 * c + v < j + 1 { cand(g0, exchanged(r, a, b), c, v) } else { cand(g0, r, c, v) } by {
                    lemma_flag_index(r, c, v);
                    lemma_flag_index(a, c, v);
                    lemma_flag_index(b, c, v);
                    let x = cand(before, a, c, v);
                    let y = cand(before, b, c, v);
                    let z = cand(before, r, c, v);
                }
            }
            j = j + 1;
        }
        proof {
            let sw = row_swapped(g0, r_index as int, shift as int);
            assert forall|r: int, c: int, v: int| below9(r) && below9(c) && below9(v) implies #[trigger] cand(self@, r, c, v)
                == cand(sw, r, c, v) by {
                lemma_flag_index(r, c, v);
                lemma_flag_index(exchanged(r, a, b), c, v);
            }
            lemma_grid_ext(self@, sw);
        }
    }

    /// Exchanges column `c_index` with the column `shift` places further in
    /// its stack of three (cyclically).
    pub fn swap_column(&mut self, c_index: usize, shift: usize)
        requires
            old(self).wf(),
            c_index < 9,
        ensures
            final(self).wf(),
            forall|r: int, c: int, v: int|
                below9(r) && below9(c) && below9(v) ==> #[trigger] cand(final(self)@, r, c, v) == cand(
                    old(self)@,
                    r,
                    exchanged(c, c_index as int, partner(c_index as int, shift as int)),
                    v,
                ),
            final(self)@ == column_swapped(old(self)@, c_index as int, shift as int),
    {
        let ghost g0 = self@;
        let cb_index = DIMENSION * (c_index / DIMENSION) + (c_index % DIMENSION + shift % DIMENSION) % DIMENSION;
        let ghost (a, b) = (c_index as int, cb_index as int);
        let mut j: usize = 0;
        while j < 81
            invariant
                j <= 81,
                c_index < 9,
                cb_index < 9,
                a == c_index as int,
                b == cb_index as int,
                self.wf(),
                forall|r: int, c: int, v: int|
                    below9(r) && below9(c) && below9(v) ==> #[trigger] cand(self@, r, c, v) == if 9 * r + v < j {
                        cand(g0, r, exchanged(c, a, b), v)
                    } else {
                        cand(g0, r, c, v)
                    },
            decreases 81 - j,
        {
            let r_index = j / DIMENSIONPWR2;
            let v = j % DIMENSIONPWR2;
            let ghost before = self@;
            proof {
                lemma_flag_index(r_index as int, a, v as int);
                lemma_flag_index(r_index as int, b, v as int);
            }
            self.swap_flags(81 * r_index + 9 * c_index + v, 81 * r_index + 9 * cb_index + v);
            proof {
                assert forall|r: int, c: int, w: int| below9(r) && below9(c) && below9(w) implies #[trigger] cand(self@, r, c, w)
                    == if 9 * r + w < j + 1 { cand(g0, r, exchanged(c, a, b), w) } else { cand(g0, r, c, w) } by {
                    lemma_flag_index(r, c, w);
                    lemma_flag_index(r, a, w);
                    lemma_flag_index(r, b, w);
                    let x = cand(before, r, a, w);
                    let y = cand(before, r, b, w);
                    let z = cand(before, r, c, w);
                }
            }
            j = j + 1;
        }
        proof {
            let sw = column_swapped(g0, c_index as int, shift as int);
            assert forall|r: int, c: int, v: int| below9(r) && below9(c) && below9(v) implies #[trigger] cand(self@, r, c, v)
                == cand(sw, r, c, v) by {
                lemma_flag_index(r, c, v);
                lemma_flag_index(r, exchanged(c, a, b), v);
            }
            lemma_grid_ext(self@, sw);
        }
    }
}

/// Adding the same amount keeps small values apart modulo three.
proof fn lemma_mod3_cancel(x: int, y: int, a: int)
    requires
        0 <= x < 3,
        0 <= y < 3,
        0 <= a < 3,
    ensures
        (x + a) % 3 == (y + a) % 3 ==> x == y,
{
}

} // verus!
