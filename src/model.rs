//! The mathematical model of a candidate grid.
//!
//! A grid is a sequence of 729 flags: the flag at `81 * r + 9 * c + v` tells
//! whether digit `v + 1` is still a candidate for the cell in row `r` and
//! column `c`. Digits are handled zero-based throughout the library.
use vstd::prelude::*;

verus! {

/// Side of a block.
pub const DIMENSION: usize = 3;

/// Side of the grid, and the number of digits.
pub const DIMENSIONPWR2: usize = DIMENSION * DIMENSION;

/// Number of flags in a grid.
pub const NUM_FLAGS: usize = DIMENSIONPWR2 * DIMENSIONPWR2 * DIMENSIONPWR2;

/// Whether `x` is a row, column or digit index.
pub open spec fn below9(x: int) -> bool {
    0 <= x < 9
}

/// Position of the flag of digit `v` in cell `(r, c)`.
pub open spec fn flag_index(r: int, c: int, v: int) -> int {
    81 * r + 9 * c + v
}

/// Whether `v` is a candidate of cell `(r, c)`.
pub open spec fn cand(g: Seq<bool>, r: int, c: int, v: int) -> bool {
    g[flag_index(r, c, v)]
}

/// Cell `(r, c)` has `v` as its only candidate.
pub open spec fn sole(g: Seq<bool>, r: int, c: int, v: int) -> bool {
    &&& cand(g, r, c, v)
    &&& forall|w: int| below9(w) && w != v ==> !#[trigger] cand(g, r, c, w)
}

/// Cell `(r, c)` holds exactly one candidate.
pub open spec fn decided(g: Seq<bool>, r: int, c: int) -> bool {
    exists|v: int| below9(v) && #[trigger] sole(g, r, c, v)
}

/// Every cell holds exactly one candidate.
pub open spec fn complete(g: Seq<bool>) -> bool {
    forall|r: int, c: int| below9(r) && below9(c) ==> #[trigger] decided(g, r, c)
}

/// Two distinct cells that share a row, a column or a block.
pub open spec fn peers(r1: int, c1: int, r2: int, c2: int) -> bool {
    &&& !(r1 == r2 && c1 == c2)
    &&& (r1 == r2 || c1 == c2 || (r1 / 3 == r2 / 3 && c1 / 3 == c2 / 3))
}

/// No two peers are both decided to the same digit.
pub open spec fn valid(g: Seq<bool>) -> bool {
    forall|r1: int, c1: int, r2: int, c2: int, v: int|
        below9(r1) && below9(c1) && below9(r2) && below9(c2) && below9(v) && peers(r1, c1, r2, c2)
            ==> !(#[trigger] sole(g, r1, c1, v) && #[trigger] sole(g, r2, c2, v))
}

/// `s` is a solved grid, and each of its digits is still a candidate in `g`.
pub open spec fn solves(g: Seq<bool>, s: Seq<bool>) -> bool {
    &&& s.len() == NUM_FLAGS
    &&& complete(s)
    &&& valid(s)
    &&& forall|r: int, c: int, v: int|
        below9(r) && below9(c) && below9(v) && #[trigger] sole(s, r, c, v) ==> cand(g, r, c, v)
}

/// Every candidate of `a` is a candidate of `b`.
pub open spec fn shrinks(a: Seq<bool>, b: Seq<bool>) -> bool {
    forall|r: int, c: int, v: int|
        below9(r) && below9(c) && below9(v) && #[trigger] cand(a, r, c, v) ==> cand(b, r, c, v)
}

/// Number of set flags among the first `n` of `s`.
pub open spec fn count_true(s: Seq<bool>, n: int) -> int
    decreases n,
{
    if n <= 0 {
        0
    } else {
        count_true(s, n - 1) + if s[n - 1] { 1int } else { 0int }
    }
}

/// Number of positions among the first `n` where both `a` and `b` are set.
pub open spec fn count_both(a: Seq<bool>, b: Seq<bool>, n: int) -> int
    decreases n,
{
    if n <= 0 {
        0
    } else {
        count_both(a, b, n - 1) + if a[n - 1] && b[n - 1] { 1int } else { 0int }
    }
}

/// Number of decided cells among the first `q` cells, row by row.
pub open spec fn decided_count(g: Seq<bool>, q: int) -> int
    decreases q,
{
    if q <= 0 {
        0
    } else {
        decided_count(g, q - 1) + if decided(g, (q - 1) / 9, (q - 1) % 9) { 1int } else { 0int }
    }
}

/// Number of candidates in the whole grid.
pub open spec fn total(g: Seq<bool>) -> int {
    count_true(g, 729)
}

/// Number of candidates among the digits below `k` in cell `(r, c)`.
pub open spec fn cell_count(g: Seq<bool>, r: int, c: int, k: int) -> int
    decreases k,
{
    if k <= 0 {
        0
    } else {
        cell_count(g, r, c, k - 1) + if cand(g, r, c, k - 1) { 1int } else { 0int }
    }
}

/// Number of candidates of cell `(r, c)`.
pub open spec fn num_options(g: Seq<bool>, r: int, c: int) -> int {
    cell_count(g, r, c, 9)
}

/// Row of the `k`-th cell of a group: `kind` 0 is row `grp`, 1 is column
/// `grp`, 2 is block `grp` (blocks numbered row by row).
pub open spec fn grow(kind: int, grp: int, k: int) -> int {
    if kind == 0 {
        grp
    } else if kind == 1 {
        k
    } else {
        3 * (grp / 3) + k / 3
    }
}

/// Column of the `k`-th cell of a group.
pub open spec fn gcol(kind: int, grp: int, k: int) -> int {
    if kind == 0 {
        k
    } else if kind == 1 {
        grp
    } else {
        3 * (grp % 3) + k % 3
    }
}

/// Whether `kind` names one of the three kinds of group.
pub open spec fn is_kind(kind: int) -> bool {
    0 <= kind < 3
}

/// No two cells of a group are decided to the same digit.
pub open spec fn group_ok(g: Seq<bool>, kind: int, grp: int) -> bool {
    forall|k1: int, k2: int, v: int|
        below9(k1) && below9(k2) && below9(v) && k1 != k2 ==> !(#[trigger] sole(
            g,
            grow(kind, grp, k1),
            gcol(kind, grp, k1),
            v,
        ) && #[trigger] sole(g, grow(kind, grp, k2), gcol(kind, grp, k2), v))
}

/// Every solution of `g` holds `v` in cell `(r, c)`.
pub open spec fn forced(g: Seq<bool>, r: int, c: int, v: int) -> bool {
    forall|s: Seq<bool>| #[trigger] solves(g, s) ==> sole(s, r, c, v)
}

/// Some solved grid agrees with `g`.
pub open spec fn solvable(g: Seq<bool>) -> bool {
    exists|s: Seq<bool>| #[trigger] solves(g, s)
}

/// Digit `d` is a candidate of the `k0`-th cell of a group and of no other cell of it.
pub open spec fn only_place(g: Seq<bool>, kind: int, grp: int, d: int, k0: int) -> bool {
    &&& cand(g, grow(kind, grp, k0), gcol(kind, grp, k0), d)
    &&& forall|k: int|
        below9(k) && k != k0 ==> !#[trigger] cand(g, grow(kind, grp, k), gcol(kind, grp, k), d)
}

/// Cell `(r, c)` is decided to `v`, and no peer of it keeps `v`.
pub open spec fn applied(g: Seq<bool>, r: int, c: int, v: int) -> bool {
    &&& sole(g, r, c, v)
    &&& forall|r2: int, c2: int|
        below9(r2) && below9(c2) && peers(r, c, r2, c2) ==> !#[trigger] cand(g, r2, c2, v)
}

/// Going from `a` to `b` loses no solution of `a`; and where `a` has a
/// solution, `b` keeps only candidates of `a`, exactly `n` fewer of them.
pub open spec fn sound_step(a: Seq<bool>, b: Seq<bool>, n: int) -> bool {
    &&& forall|s: Seq<bool>| #[trigger] solves(a, s) ==> solves(b, s)
    &&& solvable(a) ==> shrinks(b, a) && total(b) + n == total(a)
}

/// Some cell of row `r` outside block column `bc` is decided to `d`.
pub open spec fn row_marked(g: Seq<bool>, r: int, bc: int, d: int) -> bool {
    exists|c: int| below9(c) && c / 3 != bc && #[trigger] sole(g, r, c, d)
}

/// Some cell of column `c` outside block row `br` is decided to `d`.
pub open spec fn col_marked(g: Seq<bool>, c: int, br: int, d: int) -> bool {
    exists|r: int| below9(r) && r / 3 != br && #[trigger] sole(g, r, c, d)
}

/// In block `(br, bc)`, exactly row `lr` and column `lc` are not excluded
/// for `d` by decided cells outside the block, and their crossing is not
/// decided yet: that crossing must hold `d`.
pub open spec fn locked_cell(g: Seq<bool>, d: int, br: int, bc: int, lr: int, lc: int) -> bool {
    &&& 0 <= lr < 3
    &&& 0 <= lc < 3
    &&& forall|i: int| 0 <= i < 3 ==> (i != lr <==> #[trigger] row_marked(g, 3 * br + i, bc, d))
    &&& forall|j: int| 0 <= j < 3 ==> (j != lc <==> #[trigger] col_marked(g, 3 * bc + j, br, d))
    &&& !decided(g, 3 * br + lr, 3 * bc + lc)
}

/// Entry `t` (row, column, candidate count) names cell `(r, c)`.
pub open spec fn at_cell(t: (usize, usize, usize), r: int, c: int) -> bool {
    t.0 as int == r && t.1 as int == c
}

/// Some entry of `u` names cell `(r, c)`.
pub open spec fn listed(u: Seq<(usize, usize, usize)>, r: int, c: int) -> bool {
    exists|i: int| 0 <= i < u.len() && #[trigger] at_cell(u[i], r, c)
}

/// Entry `a` comes before entry `b`: more candidates first, then row by row.
pub open spec fn ranked_before(a: (usize, usize, usize), b: (usize, usize, usize)) -> bool {
    a.2 > b.2 || (a.2 == b.2 && 9 * a.0 + a.1 < 9 * b.0 + b.1)
}

/// Every candidate of the puzzle `p` is the only one of its cell, and the
/// digit that the solved grid `f` holds there.
pub open spec fn clues_of(p: Seq<bool>, f: Seq<bool>) -> bool {
    forall|r: int, c: int, v: int|
        below9(r) && below9(c) && below9(v) && #[trigger] cand(p, r, c, v) ==> sole(p, r, c, v) && sole(f, r, c, v)
}

/// Cell `(r, c)` has no candidate.
pub open spec fn empty_cell(g: Seq<bool>, r: int, c: int) -> bool {
    forall|v: int| below9(v) ==> !#[trigger] cand(g, r, c, v)
}

/// Every other cell of row `r` than `(r, c)` is decided.
pub open spec fn row_filled(g: Seq<bool>, r: int, c: int) -> bool {
    forall|c2: int| below9(c2) && c2 != c ==> #[trigger] decided(g, r, c2)
}

/// Flag positions of distinct cells and digits are distinct, and each stays in the grid.
pub proof fn lemma_flag_index(r: int, c: int, v: int)
    requires
        below9(r),
        below9(c),
        below9(v),
    ensures
        0 <= flag_index(r, c, v) < 729,
        flag_index(r, c, v) / 81 == r,
        (flag_index(r, c, v) / 9) % 9 == c,
        flag_index(r, c, v) % 9 == v,
{
}

/// Each flag position names one cell and digit.
pub proof fn lemma_flag_of(i: int)
    requires
        0 <= i < 729,
    ensures
        below9(i / 81),
        below9((i / 9) % 9),
        below9(i % 9),
        flag_index(i / 81, (i / 9) % 9, i % 9) == i,
{
}

/// Two grids with the same candidates are equal.
pub proof fn lemma_grid_ext(a: Seq<bool>, b: Seq<bool>)
    requires
        a.len() == 729,
        b.len() == 729,
        forall|r: int, c: int, v: int|
            below9(r) && below9(c) && below9(v) ==> #[trigger] cand(a, r, c, v) == cand(b, r, c, v),
    ensures
        a == b,
{
    assert forall|i: int| 0 <= i < 729 implies a[i] == b[i] by {
        lemma_flag_of(i);
        assert(cand(a, i / 81, (i / 9) % 9, i % 9) == cand(b, i / 81, (i / 9) % 9, i % 9));
    }
    assert(a =~= b);
}

/// Clearing a set flag lowers the count by one.
pub proof fn lemma_count_clear(s: Seq<bool>, i: int, n: int)
    requires
        0 <= i < n <= s.len(),
        s[i],
    ensures
        count_true(s.update(i, false), n) == count_true(s, n) - 1,
    decreases n,
{
    if n - 1 != i {
        lemma_count_clear(s, i, n - 1);
    } else {
        lemma_count_same(s, s.update(i, false), n - 1);
    }
}

/// Counts agree on sequences that agree on the counted prefix.
pub proof fn lemma_count_same(a: Seq<bool>, b: Seq<bool>, n: int)
    requires
        0 <= n <= a.len(),
        n <= b.len(),
        forall|i: int| 0 <= i < n ==> a[i] == b[i],
    ensures
        count_true(a, n) == count_true(b, n),
    decreases n,
{
    if n > 0 {
        lemma_count_same(a, b, n - 1);
    }
}

/// A sequence whose set flags are set in another counts no more.
pub proof fn lemma_count_mono(a: Seq<bool>, b: Seq<bool>, n: int)
    requires
        0 <= n <= a.len(),
        n <= b.len(),
        forall|i: int| 0 <= i < n && #[trigger] a[i] ==> b[i],
    ensures
        count_true(a, n) <= count_true(b, n),
    decreases n,
{
    if n > 0 {
        lemma_count_mono(a, b, n - 1);
    }
}

/// A count lies between zero and the length counted.
pub proof fn lemma_count_bounds(s: Seq<bool>, n: int)
    requires
        0 <= n,
    ensures
        0 <= count_true(s, n) <= n,
    decreases n,
{
    if n > 0 {
        lemma_count_bounds(s, n - 1);
    }
}

/// A grid that shrinks into another has no more candidates.
pub proof fn lemma_total_shrinks(a: Seq<bool>, b: Seq<bool>)
    requires
        a.len() == 729,
        b.len() == 729,
        shrinks(a, b),
    ensures
        total(a) <= total(b),
{
    assert forall|i: int| 0 <= i < 729 && #[trigger] a[i] implies b[i] by {
        lemma_flag_of(i);
        assert(cand(a, i / 81, (i / 9) % 9, i % 9));
    }
    lemma_count_mono(a, b, 729);
}

/// At most `q` of the first `q` cells are decided, fewer if one of them is not.
pub proof fn lemma_decided_count_bound(g: Seq<bool>, q: int, x: int)
    requires
        0 <= q,
    ensures
        0 <= decided_count(g, q) <= q,
        0 <= x < q && !decided(g, x / 9, x % 9) ==> decided_count(g, q) < q,
    decreases q,
{
    if q > 0 {
        lemma_decided_count_bound(g, q - 1, x);
    }
}

/// No decided cell among the first `q`: a count of zero.
pub proof fn lemma_decided_count_none(g: Seq<bool>, q: int)
    requires
        forall|y: int| 0 <= y < q ==> !#[trigger] decided(g, y / 9, y % 9),
    ensures
        decided_count(g, q) == 0,
    decreases q,
{
    if q > 0 {
        lemma_decided_count_none(g, q - 1);
    }
}

/// Deciding one more cell, and changing no other, adds one to the count.
pub proof fn lemma_decided_count_step(a: Seq<bool>, b: Seq<bool>, q: int, x: int)
    requires
        0 <= x,
        0 <= q,
        !decided(a, x / 9, x % 9),
        decided(b, x / 9, x % 9),
        forall|y: int| 0 <= y < q && y != x ==> #[trigger] decided(a, y / 9, y % 9) == decided(b, y / 9, y % 9),
    ensures
        decided_count(b, q) == decided_count(a, q) + if x < q { 1int } else { 0int },
    decreases q,
{
    if q > 0 {
        lemma_decided_count_step(a, b, q - 1, x);
    }
}

/// A grid that shrinks into another and lacks one of its candidates has fewer.
pub proof fn lemma_total_drop(a: Seq<bool>, b: Seq<bool>, r: int, c: int, v: int)
    requires
        a.len() == 729,
        b.len() == 729,
        below9(r),
        below9(c),
        below9(v),
        shrinks(a, b),
        cand(b, r, c, v),
        !cand(a, r, c, v),
    ensures
        total(a) < total(b),
{
    lemma_flag_index(r, c, v);
    let idx = flag_index(r, c, v);
    let b2 = b.update(idx, false);
    assert forall|i: int| 0 <= i < 729 && #[trigger] a[i] implies b2[i] by {
        lemma_flag_of(i);
        assert(cand(a, i / 81, (i / 9) % 9, i % 9));
    }
    lemma_count_mono(a, b2, 729);
    lemma_count_clear(b, idx, 729);
}

/// A grid that shrinks into another with as many candidates is that grid.
pub proof fn lemma_same_total(a: Seq<bool>, b: Seq<bool>)
    requires
        a.len() == 729,
        b.len() == 729,
        shrinks(a, b),
        total(a) == total(b),
    ensures
        a == b,
{
    assert forall|r: int, c: int, v: int| below9(r) && below9(c) && below9(v) implies #[trigger] cand(a, r, c, v)
        == cand(b, r, c, v) by {
        if cand(b, r, c, v) && !cand(a, r, c, v) {
            lemma_total_drop(a, b, r, c, v);
        }
    }
    lemma_grid_ext(a, b);
}

/// The count of a cell whose only candidate is `v`.
pub proof fn lemma_cell_count_sole(g: Seq<bool>, r: int, c: int, v: int, k: int)
    requires
        below9(v),
        0 <= k <= 9,
        sole(g, r, c, v),
    ensures
        cell_count(g, r, c, k) == if v < k { 1int } else { 0int },
    decreases k,
{
    if k > 0 {
        lemma_cell_count_sole(g, r, c, v, k - 1);
    }
}

/// A cell's count lies between zero and the digits counted.
pub proof fn lemma_cell_count_bounds(g: Seq<bool>, r: int, c: int, k: int)
    requires
        0 <= k,
    ensures
        0 <= cell_count(g, r, c, k) <= k,
    decreases k,
{
    if k > 0 {
        lemma_cell_count_bounds(g, r, c, k - 1);
    }
}

/// A decided cell has exactly one candidate, and a cell with exactly one is decided.
pub proof fn lemma_decided_count(g: Seq<bool>, r: int, c: int)
    ensures
        decided(g, r, c) <==> num_options(g, r, c) == 1,
{
    if decided(g, r, c) {
        let v = choose|v: int| below9(v) && sole(g, r, c, v);
        lemma_cell_count_sole(g, r, c, v, 9);
    }
    if num_options(g, r, c) == 1 {
        lemma_single_count(g, r, c, 9);
    }
}

/// A prefix count of one names a digit that is the only candidate in the prefix.
proof fn lemma_single_count(g: Seq<bool>, r: int, c: int, k: int)
    requires
        0 <= k <= 9,
        cell_count(g, r, c, k) == 1,
    ensures
        exists|v: int|
            0 <= v < k && cand(g, r, c, v) && (forall|w: int|
                0 <= w < k && w != v ==> !#[trigger] cand(g, r, c, w)),
        k == 9 ==> decided(g, r, c),
    decreases k,
{
    if cell_count(g, r, c, k - 1) == 1 {
        lemma_single_count(g, r, c, k - 1);
        let v = choose|v: int|
            0 <= v < k - 1 && cand(g, r, c, v) && (forall|w: int|
                0 <= w < k - 1 && w != v ==> !#[trigger] cand(g, r, c, w));
        assert(cand(g, r, c, v));
    } else {
        lemma_zero_count(g, r, c, k - 1);
        assert(cand(g, r, c, k - 1));
    }
    if k == 9 {
        let v = choose|v: int|
            0 <= v < k && cand(g, r, c, v) && (forall|w: int|
                0 <= w < k && w != v ==> !#[trigger] cand(g, r, c, w));
        assert(sole(g, r, c, v));
    }
}

/// A prefix count of zero means no candidate in the prefix.
pub proof fn lemma_zero_count(g: Seq<bool>, r: int, c: int, k: int)
    requires
        0 <= k <= 9,
        cell_count(g, r, c, k) <= 0,
    ensures
        forall|w: int| 0 <= w < k ==> !#[trigger] cand(g, r, c, w),
    decreases k,
{
    if k > 0 {
        lemma_cell_count_bounds(g, r, c, k - 1);
        lemma_zero_count(g, r, c, k - 1);
    }
}

} // verus!
