//! The candidate grid and its primitive operations.
use vstd::prelude::*;
use crate::model::{
    at_cell, below9, cand, cell_count, decided, lemma_cell_count_bounds, lemma_count_clear,
    lemma_decided_count, lemma_flag_index, lemma_grid_ext, lemma_zero_count, listed, num_options, peers,
    ranked_before, sole, total, DIMENSION, DIMENSIONPWR2, NUM_FLAGS,
};

verus! {

/// A 9 by 9 grid in which every cell holds the set of its remaining candidates.
pub struct Sudoku {
    data: Vec<bool>,
}

impl View for Sudoku {
    type V = Seq<bool>;

    closed spec fn view(&self) -> Seq<bool> {
        self.data@
    }
}

impl Sudoku {
    /// The grid has one flag for each cell and digit.
    pub open spec fn wf(&self) -> bool {
        self@.len() == NUM_FLAGS
    }

    /// A grid in which every digit is a candidate of every cell (`init_b`),
    /// or none is.
    pub fn new(init_b: bool) -> (s: Sudoku)
        ensures
            s.wf(),
            forall|i: int| 0 <= i < 729 ==> s@[i] == init_b,
    {
        let mut data: Vec<bool> = Vec::new();
        let mut i: usize = 0;
        while i < NUM_FLAGS
            invariant
                i <= NUM_FLAGS,
                data@.len() == i,
                forall|j: int| 0 <= j < i ==> data@[j] == init_b,
            decreases NUM_FLAGS - i,
        {
            data.push(init_b);
            i = i + 1;
        }
        Sudoku { data }
    }

    /// A solved grid from its digits, `input[r][c]` in `1..=9` for row `r`
    /// and column `c`: each cell has its digit as only candidate.
    pub fn new_with_data(input: Vec<Vec<usize>>) -> (s: Sudoku)
        requires
            input@.len() == 9,
            forall|r: int| 0 <= r < 9 ==> (#[trigger] input@[r])@.len() == 9,
            forall|r: int, c: int| below9(r) && below9(c) ==> 1 <= #[trigger] input@[r]@[c] <= 9,
        ensures
            s.wf(),
            forall|r: int, c: int, v: int|
                below9(r) && below9(c) && below9(v) ==> #[trigger] cand(s@, r, c, v) == (input@[r]@[c] == v + 1),
    {
        let mut retval = Sudoku::new(false);
        let mut q: usize = 0;
        while q < 81
            invariant
                q <= 81,
                retval.wf(),
                input@.len() == 9,
                forall|r: int| 0 <= r < 9 ==> (#[trigger] input@[r])@.len() == 9,
                forall|r: int, c: int| below9(r) && below9(c) ==> 1 <= #[trigger] input@[r]@[c] <= 9,
                forall|r: int, c: int, v: int|
                    below9(r) && below9(c) && below9(v) ==> #[trigger] cand(retval@, r, c, v) == (9 * r + c < q
                        && input@[r]@[c] == v + 1),
            decreases 81 - q,
        {
            let ri = q / DIMENSIONPWR2;
            let ci = q % DIMENSIONPWR2;
            let d = input[ri][ci];
            retval.set(ri, ci, d - 1);
            q = q + 1;
        }
        proof {
            lemma_flag_index(0, 0, 0);
        }
        retval
    }

    /// The flag at position `i`.
    pub fn flag(&self, i: usize) -> (b: bool)
        requires
            self.wf(),
            i < 729,
        ensures
            b == self@[i as int],
    {
        self.data[i]
    }

    /// Exchanges the flags at positions `i` and `j`.
    pub(crate) fn swap_flags(&mut self, i: usize, j: usize)
        requires
            old(self).wf(),
            i < 729,
            j < 729,
        ensures
            final(self).wf(),
            final(self)@ == old(self)@.update(i as int, old(self)@[j as int]).update(j as int, old(self)@[i as int]),
    {
        let a = self.data[i];
        let b = self.data[j];
        self.data.set(i, b);
        self.data.set(j, a);
    }

    /// Whether digit `v` is a candidate of cell `(r, c)`.
    pub fn has_option(&self, r: usize, c: usize, v: usize) -> (b: bool)
        requires
            self.wf(),
            r < 9,
            c < 9,
            v < 9,
        ensures
            b == cand(self@, r as int, c as int, v as int),
    {
        proof {
            lemma_flag_index(r as int, c as int, v as int);
        }
        self.data[81 * r + 9 * c + v]
    }

    /// Reveals cell `(r, c)`: `v` becomes its only candidate. Returns whether
    /// `v` already was its only candidate, in which case nothing changes.
    pub fn set(&mut self, r: usize, c: usize, v: usize) -> (was_sole: bool)
        requires
            old(self).wf(),
            r < 9,
            c < 9,
            v < 9,
        ensures
            final(self).wf(),
            forall|r2: int, c2: int, w: int|
                below9(r2) && below9(c2) && below9(w) ==> #[trigger] cand(final(self)@, r2, c2, w)
                    == if r2 == r && c2 == c { w == v } else { cand(old(self)@, r2, c2, w) },
            was_sole == sole(old(self)@, r as int, c as int, v as int),
            was_sole ==> final(self)@ == old(self)@,
    {
        let ghost g0 = self@;
        let was_sole = match self.unique_option(r, c) {
            Some(u) => u == v,
            None => false,
        };
        self.clear_others(r, c, v);
        self.raise(r, c, v);
        proof {
            if was_sole {
                lemma_grid_ext(self@, g0);
            }
        }
        was_sole
    }

    /// Removes every candidate of cell `(r, c)` but `v`; returns how many went.
    pub(crate) fn clear_others(&mut self, r: usize, c: usize, v: usize) -> (count: usize)
        requires
            old(self).wf(),
            r < 9,
            c < 9,
            v < 9,
        ensures
            final(self).wf(),
            forall|r2: int, c2: int, w: int|
                below9(r2) && below9(c2) && below9(w) ==> #[trigger] cand(final(self)@, r2, c2, w)
                    == (cand(old(self)@, r2, c2, w) && !(r2 == r && c2 == c && w != v)),
            count == total(old(self)@) - total(final(self)@),
            count <= 9,
    {
        let ghost g0 = self@;
        let mut count: usize = 0;
        let mut vi: usize = 0;
        while vi < DIMENSIONPWR2
            invariant
                vi <= 9,
                r < 9,
                c < 9,
                v < 9,
                self.wf(),
                count <= vi,
                count == total(g0) - total(self@),
                forall|r2: int, c2: int, w: int|
                    below9(r2) && below9(c2) && below9(w) ==> #[trigger] cand(self@, r2, c2, w)
                        == (cand(g0, r2, c2, w) && !(r2 == r && c2 == c && w != v && w < vi)),
            decreases 9 - vi,
        {
            if vi != v {
                if self.eliminate(r, c, vi) {
                    count = count + 1;
                }
            }
            vi = vi + 1;
        }
        count
    }

    /// Makes `v` a candidate of cell `(r, c)`.
    pub(crate) fn raise(&mut self, r: usize, c: usize, v: usize)
        requires
            old(self).wf(),
            r < 9,
            c < 9,
            v < 9,
        ensures
            final(self).wf(),
            forall|r2: int, c2: int, w: int|
                below9(r2) && below9(c2) && below9(w) ==> #[trigger] cand(final(self)@, r2, c2, w)
                    == (cand(old(self)@, r2, c2, w) || (r2 == r && c2 == c && w == v)),
            cand(old(self)@, r as int, c as int, v as int) ==> final(self)@ == old(self)@,
    {
        proof {
            lemma_flag_index(r as int, c as int, v as int);
        }
        let ghost before = self@;
        self.data.set(81 * r + 9 * c + v, true);
        proof {
            assert forall|r2: int, c2: int, w: int|
                below9(r2) && below9(c2) && below9(w) implies #[trigger] cand(self@, r2, c2, w)
                    == (cand(before, r2, c2, w) || (r2 == r && c2 == c && w == v)) by {
                lemma_flag_index(r2, c2, w);
            }
            if cand(before, r as int, c as int, v as int) {
                assert(self@ =~= before);
            }
        }
    }

    /// Removes candidate `v` from cell `(r, c)`; tells whether it was there.
    pub fn eliminate(&mut self, r: usize, c: usize, v: usize) -> (changed: bool)
        requires
            old(self).wf(),
            r < 9,
            c < 9,
            v < 9,
        ensures
            final(self).wf(),
            changed == cand(old(self)@, r as int, c as int, v as int),
            total(final(self)@) == total(old(self)@) - if changed { 1int } else { 0int },
            forall|r2: int, c2: int, w: int|
                below9(r2) && below9(c2) && below9(w) ==> #[trigger] cand(final(self)@, r2, c2, w)
                    == (cand(old(self)@, r2, c2, w) && !(r2 == r && c2 == c && w == v)),
    {
        proof {
            lemma_flag_index(r as int, c as int, v as int);
        }
        let i: usize = 81 * r + 9 * c + v;
        if self.data[i] {
            let ghost before = self@;
            self.data.set(i, false);
            proof {
                lemma_count_clear(before, i as int, 729);
                assert forall|r2: int, c2: int, w: int|
                    below9(r2) && below9(c2) && below9(w) implies #[trigger] cand(self@, r2, c2, w)
                        == (cand(before, r2, c2, w) && !(r2 == r && c2 == c && w == v)) by {
                    lemma_flag_index(r2, c2, w);
                }
            }
            true
        } else {
            false
        }
    }

    /// Removes digit `value` from every peer of cell `(r_index, c_index)`: the
    /// other cells of its row, its column and its block. Returns how many
    /// candidates were removed.
    pub fn remove_others(&mut self, r_index: usize, c_index: usize, value: usize) -> (count: usize)
        requires
            old(self).wf(),
            r_index < 9,
            c_index < 9,
            value < 9,
        ensures
            final(self).wf(),
            count == total(old(self)@) - total(final(self)@),
            forall|r2: int, c2: int, w: int|
                below9(r2) && below9(c2) && below9(w) ==> #[trigger] cand(final(self)@, r2, c2, w)
                    == (cand(old(self)@, r2, c2, w) && !(w == value && peers(
                    r_index as int,
                    c_index as int,
                    r2,
                    c2,
                ))),
    {
        let ghost g0 = self@;
        let mut count: usize = 0;
        let mut q: usize = 0;
        while q < 81
            invariant
                q <= 81,
                r_index < 9,
                c_index < 9,
                value < 9,
                self.wf(),
                count <= q,
                count == total(g0) - total(self@),
                forall|r2: int, c2: int, w: int|
                    below9(r2) && below9(c2) && below9(w) ==> #[trigger] cand(self@, r2, c2, w) == (
                    cand(g0, r2, c2, w) && !(w == value && 9 * r2 + c2 < q && peers(
                        r_index as int,
                        c_index as int,
                        r2,
                        c2,
                    ))),
            decreases 81 - q,
        {
            let r: usize = q / DIMENSIONPWR2;
            let c: usize = q % DIMENSIONPWR2;
            let same_block = r / DIMENSION == r_index / DIMENSION && c / DIMENSION == c_index
                / DIMENSION;
            if (r != r_index || c != c_index) && (r == r_index || c == c_index || same_block) {
                if self.eliminate(r, c, value) {
                    count = count + 1;
                }
            }
            q = q + 1;
        }
        count
    }

    /// Number of candidates of cell `(r, c)`.
    fn option_count(&self, r: usize, c: usize) -> (n: usize)
        requires
            self.wf(),
            r < 9,
            c < 9,
        ensures
            n as int == num_options(self@, r as int, c as int),
            n <= 9,
    {
        let mut n: usize = 0;
        let mut k: usize = 0;
        while k < DIMENSIONPWR2
            invariant
                k <= 9,
                r < 9,
                c < 9,
                self.wf(),
                n as int == cell_count(self@, r as int, c as int, k as int),
                n <= k,
            decreases 9 - k,
        {
            if self.has_option(r, c, k) {
                n = n + 1;
            }
            k = k + 1;
        }
        n
    }

    /// The cells with more than one candidate, as (row, column, number of
    /// candidates), most candidates first; cells with equally many come row
    /// by row.
    pub fn undecided_cells(&self) -> (undec_cells: Vec<(usize, usize, usize)>)
        requires
            self.wf(),
        ensures
            forall|i: int| 0 <= i < undec_cells@.len() ==> {
                let t = #[trigger] undec_cells@[i];
                &&& t.0 < 9
                &&& t.1 < 9
                &&& t.2 > 1
                &&& t.2 as int == num_options(self@, t.0 as int, t.1 as int)
            },
            forall|r: int, c: int|
                below9(r) && below9(c) && #[trigger] num_options(self@, r, c) > 1 ==> listed(undec_cells@, r, c),
            forall|i: int, j: int|
                0 <= i < j < undec_cells@.len() ==> ranked_before(#[trigger] undec_cells@[i], #[trigger] undec_cells@[j]),
    {
        let mut counts: Vec<usize> = Vec::new();
        let mut q: usize = 0;
        while q < 81
            invariant
                q <= 81,
                self.wf(),
                counts@.len() == q,
                forall|p: int| 0 <= p < q ==> #[trigger] counts@[p] as int == num_options(self@, p / 9, p % 9) && counts@[p] <= 9,
            decreases 81 - q,
        {
            let n = self.option_count(q / DIMENSIONPWR2, q % DIMENSIONPWR2);
            counts.push(n);
            q = q + 1;
        }
        let mut undec_cells: Vec<(usize, usize, usize)> = Vec::new();
        let mut level: usize = DIMENSIONPWR2;
        proof {
            assert forall|r: int, c: int| below9(r) && below9(c) implies #[trigger] num_options(self@, r, c) <= 9 by {
                lemma_cell_count_bounds(self@, r, c, 9);
            }
        }
        while level > 1
            invariant
                1 <= level <= 9,
                self.wf(),
                counts@.len() == 81,
                forall|p: int| 0 <= p < 81 ==> #[trigger] counts@[p] as int == num_options(self@, p / 9, p % 9) && counts@[p] <= 9,
                forall|i: int| 0 <= i < undec_cells@.len() ==> {
                    let t = #[trigger] undec_cells@[i];
                    &&& t.0 < 9
                    &&& t.1 < 9
                    &&& t.2 > level
                    &&& t.2 as int == num_options(self@, t.0 as int, t.1 as int)
                },
                forall|r: int, c: int|
                    below9(r) && below9(c) && #[trigger] num_options(self@, r, c) > level ==> listed(undec_cells@, r, c),
                forall|i: int, j: int|
                    0 <= i < j < undec_cells@.len() ==> ranked_before(#[trigger] undec_cells@[i], #[trigger] undec_cells@[j]),
            decreases level,
        {
            let mut q: usize = 0;
            while q < 81
                invariant
                    q <= 81,
                    1 < level <= 9,
                    self.wf(),
                    counts@.len() == 81,
                    forall|p: int| 0 <= p < 81 ==> #[trigger] counts@[p] as int == num_options(self@, p / 9, p % 9) && counts@[p] <= 9,
                    forall|i: int| 0 <= i < undec_cells@.len() ==> {
                        let t = #[trigger] undec_cells@[i];
                        &&& t.0 < 9
                        &&& t.1 < 9
                        &&& (t.2 > level || (t.2 == level && 9 * t.0 + t.1 < q))
                        &&& t.2 as int == num_options(self@, t.0 as int, t.1 as int)
                    },
                    forall|r: int, c: int|
                        below9(r) && below9(c) && (#[trigger] num_options(self@, r, c) > level || (num_options(self@, r, c) == level && 9 * r + c < q))
                            ==> listed(undec_cells@, r, c),
                    forall|i: int, j: int|
                        0 <= i < j < undec_cells@.len() ==> ranked_before(#[trigger] undec_cells@[i], #[trigger] undec_cells@[j]),
                decreases 81 - q,
            {
                if counts[q] == level {
                    let ri = q / DIMENSIONPWR2;
                    let ci = q % DIMENSIONPWR2;
                    let e = (ri, ci, level);
                    let ghost before = undec_cells@;
                    undec_cells.push(e);
                    proof {
                        assert forall|r: int, c: int| #[trigger] listed(before, r, c) implies listed(undec_cells@, r, c) by {
                            let i = choose|i: int| 0 <= i < before.len() && #[trigger] at_cell(before[i], r, c);
                            assert(at_cell(undec_cells@[i], r, c));
                        }
                        assert(at_cell(undec_cells@[before.len() as int], ri as int, ci as int));
                    }
                }
                q = q + 1;
            }
            level = level - 1;
        }
        undec_cells
    }

    /// The only candidate of cell `(r_index, c_index)`, if it has exactly one.
    pub fn unique_option(&self, r_index: usize, c_index: usize) -> (res: Option<usize>)
        requires
            self.wf(),
            r_index < 9,
            c_index < 9,
        ensures
            res.is_some() == decided(self@, r_index as int, c_index as int),
            res.is_some() == (num_options(self@, r_index as int, c_index as int) == 1),
            res matches Some(v) ==> v < 9 && sole(self@, r_index as int, c_index as int, v as int),
    {
        let ghost r = r_index as int;
        let ghost c = c_index as int;
        let mut uniq: usize = 0;
        let mut a: usize = 0;
        let mut index: usize = 0;
        while index < DIMENSIONPWR2
            invariant
                index <= 9,
                r_index < 9,
                c_index < 9,
                self.wf(),
                r == r_index as int,
                c == c_index as int,
                a == cell_count(self@, r, c, index as int),
                a >= 1 ==> uniq < index && cand(self@, r, c, uniq as int),
                a == 1 ==> forall|w: int|
                    0 <= w < index && w != uniq ==> !#[trigger] cand(self@, r, c, w),
            decreases 9 - index,
        {
            proof {
                lemma_cell_count_bounds(self@, r, c, index as int);
                if a == 0 {
                    lemma_zero_count(self@, r, c, index as int);
                }
                assert(cell_count(self@, r, c, index as int + 1) == cell_count(self@, r, c, index as int)
                    + if cand(self@, r, c, index as int) { 1int } else { 0int });
            }
            if self.has_option(r_index, c_index, index) {
                uniq = index;
                a = a + 1;
            }
            proof {
                if a == 0 {
                    lemma_zero_count(self@, r, c, index as int + 1);
                }
            }
            index = index + 1;
        }
        proof {
            lemma_decided_count(self@, r, c);
        }
        if a == 1 {
            Some(uniq)
        } else {
            None
        }
    }

    /// Whether cell `(r_index, c_index)` has no candidate left.
    pub fn empty_option(&self, r_index: usize, c_index: usize) -> (empty: bool)
        requires
            self.wf(),
            r_index < 9,
            c_index < 9,
        ensures
            empty == forall|w: int| below9(w) ==> !#[trigger] cand(self@, r_index as int, c_index as int, w),
    {
        let mut empty = true;
        let mut index: usize = 0;
        while index < DIMENSIONPWR2
            invariant
                index <= 9,
                r_index < 9,
                c_index < 9,
                self.wf(),
                empty == forall|w: int|
                    0 <= w < index ==> !#[trigger] cand(self@, r_index as int, c_index as int, w),
            decreases 9 - index,
        {
            empty = empty && !self.has_option(r_index, c_index, index);
            index = index + 1;
        }
        empty
    }
}

} // verus!
