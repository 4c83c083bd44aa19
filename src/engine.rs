//! The elimination engine: one pass of deduction over the whole grid.
use vstd::prelude::*;
use vstd::arithmetic::div_mod::lemma_fundamental_div_mod_converse;
use crate::grid::Sudoku;
use crate::logic::{
    lemma_applied_persists, lemma_group_cells, lemma_hidden_single, lemma_locked,
    lemma_locked_persists, lemma_naked_single, lemma_sole_persists, lemma_solves_itself,
    lemma_sound_trans,
};
use crate::model::{
    applied, below9, cand, col_marked, complete, decided, forced, gcol, grow, is_kind,
    lemma_grid_ext, lemma_same_total, lemma_total_shrinks, locked_cell, only_place, peers, row_marked, shrinks,
    sole, solvable, solves, sound_step, total, valid, DIMENSION, DIMENSIONPWR2,
};

verus! {

/// Row and column of the `k`-th cell of a group (see `grow`).
pub fn cell_of(kind: usize, grp: usize, k: usize) -> (rc: (usize, usize))
    requires
        kind < 3,
        grp < 9,
        k < 9,
    ensures
        rc.0 == grow(kind as int, grp as int, k as int),
        rc.1 == gcol(kind as int, grp as int, k as int),
        rc.0 < 9,
        rc.1 < 9,
{
    if kind == 0 {
        (grp, k)
    } else if kind == 1 {
        (k, grp)
    } else {
        (DIMENSION * (grp / DIMENSION) + k / DIMENSION, DIMENSION * (grp % DIMENSION) + k % DIMENSION)
    }
}

/// The triple names cell `(r, c)` and digit `v`.
spec fn is_triple(t: (usize, usize, usize), r: int, c: int, v: int) -> bool {
    t.0 as int == r && t.1 as int == c && t.2 as int == v
}

/// Some entry of `qs` names cell `(r, c)` and digit `v`.
spec fn in_queue(qs: Seq<(usize, usize, usize)>, r: int, c: int, v: int) -> bool {
    exists|i: int| 0 <= i < qs.len() && #[trigger] is_triple(qs[i], r, c, v)
}

/// The triple names a cell and a digit that every solution of `g` holds there.
spec fn queued(g: Seq<bool>, t: (usize, usize, usize)) -> bool {
    t.0 < 9 && t.1 < 9 && t.2 < 9 && forced(g, t.0 as int, t.1 as int, t.2 as int)
}

/// The deduction named by the triple has been carried out in `g`.
spec fn done(g: Seq<bool>, t: (usize, usize, usize)) -> bool {
    applied(g, t.0 as int, t.1 as int, t.2 as int)
}

/// Pushing keeps every entry of a queue, and adds the pushed one.
proof fn lemma_queue_push(qs: Seq<(usize, usize, usize)>, t: (usize, usize, usize), r: int, c: int, v: int)
    requires
        in_queue(qs, r, c, v) || is_triple(t, r, c, v),
    ensures
        in_queue(qs.push(t), r, c, v),
{
    if is_triple(t, r, c, v) {
        assert(is_triple(qs.push(t)[qs.len() as int], r, c, v));
    } else {
        let i = choose|i: int| 0 <= i < qs.len() && #[trigger] is_triple(qs[i], r, c, v);
        assert(is_triple(qs.push(t)[i], r, c, v));
    }
}

/// The digit and block that a step of the block sweep stands for.
proof fn lemma_radix_block(t: int, d: int, br: int, bc: int)
    requires
        below9(d),
        0 <= br < 3,
        0 <= bc < 3,
        9 * d + 3 * br + bc == t,
    ensures
        d == t / 9,
        br == (t % 9) / 3,
        bc == t % 3,
{
    lemma_fundamental_div_mod_converse(t, 9, d, 3 * br + bc);
    lemma_fundamental_div_mod_converse(3 * br + bc, 3, br, bc);
    lemma_fundamental_div_mod_converse(t, 3, 3 * d + br, bc);
}

/// The kind, digit and group that a step of the group sweep stands for.
proof fn lemma_radix(t: int, a: int, b: int, c: int)
    requires
        0 <= a,
        below9(b),
        below9(c),
        81 * a + 9 * b + c == t,
    ensures
        a == t / 81,
        b == (t / 9) % 9,
        c == t % 9,
{
    lemma_fundamental_div_mod_converse(t, 81, a, 9 * b + c);
    lemma_fundamental_div_mod_converse(t, 9, 9 * a + b, c);
    lemma_fundamental_div_mod_converse(9 * a + b, 9, a, b);
}

impl Sudoku {
    /// Queues the one place left for `value` in a group, if there is one.
    fn queue_hidden_single(
        &self,
        kind: usize,
        grp: usize,
        value: usize,
        candidates_set: &mut Vec<(usize, usize, usize)>,
    )
        requires
            self.wf(),
            kind < 3,
            grp < 9,
            value < 9,
            forall|i: int| 0 <= i < old(candidates_set)@.len() ==> queued(self@, #[trigger] old(candidates_set)@[i]),
        ensures
            final(candidates_set)@.len() <= old(candidates_set)@.len() + 1,
            forall|i: int| 0 <= i < final(candidates_set)@.len() ==> queued(self@, #[trigger] final(candidates_set)@[i]),
            forall|r: int, c: int, v: int| #[trigger] in_queue(old(candidates_set)@, r, c, v) ==> in_queue(final(candidates_set)@, r, c, v),
            forall|k: int| below9(k) && #[trigger] only_place(self@, kind as int, grp as int, value as int, k)
                ==> in_queue(final(candidates_set)@, grow(kind as int, grp as int, k), gcol(kind as int, grp as int, k), value as int),
    {
        let ghost g0 = self@;
        let ghost before = candidates_set@;
        match self.only_place_in_group(kind, grp, value) {
            Some(k) => {
                let (r_last, c_last) = cell_of(kind, grp, k);
                let e = (r_last, c_last, value);
                proof {
                    assert forall|s: Seq<bool>| #[trigger] solves(g0, s) implies sole(s, r_last as int, c_last as int, value as int) by {
                        lemma_hidden_single(g0, s, kind as int, grp as int, value as int, k as int);
                    }
                    assert(queued(g0, e));
                }
                candidates_set.push(e);
                proof {
                    assert forall|r: int, c: int, v: int| #[trigger] in_queue(before, r, c, v) implies in_queue(candidates_set@, r, c, v) by {
                        lemma_queue_push(before, e, r, c, v);
                    }
                    assert forall|k2: int| below9(k2) && #[trigger] only_place(g0, kind as int, grp as int, value as int, k2)
                        implies in_queue(candidates_set@, grow(kind as int, grp as int, k2), gcol(kind as int, grp as int, k2), value as int) by {
                        assert(k2 == k);
                        lemma_queue_push(before, e, r_last as int, c_last as int, value as int);
                    }
                }
            },
            None => {},
        }
    }

    /// One pass of the elimination engine over the whole grid.
    ///
    /// Every cell with a single candidate, and every digit with a single
    /// place left in a row, column or block, is revealed and its digit removed
    /// from the peers. Then each block is checked for the locked pattern of
    /// `locked_cell`, which is revealed in the same way. Returns the number of
    /// candidates removed from peers; the caller repeats the pass until it
    /// returns 0.
    ///
    /// No solution of the grid is lost. Where the grid has a solution, the
    /// pass only removes candidates and returns how many it removed, so it
    /// returns 0 exactly when the grid is left as it is; and it
    /// carries out each of the single deductions that the grid offered at the
    /// start, and decides each cell that a locked pattern names at the start.
    /// A solved, valid grid is left as it is, and 0 is returned.
    pub fn reduce_options(&mut self) -> (sum: usize)
        requires
            old(self).wf(),
        ensures
            final(self).wf(),
            sound_step(old(self)@, final(self)@, sum as int),
            solvable(old(self)@) ==> forall|r: int, c: int, v: int|
                below9(r) && below9(c) && below9(v) && #[trigger] sole(old(self)@, r, c, v)
                    ==> applied(final(self)@, r, c, v),
            solvable(old(self)@) ==> forall|kind: int, grp: int, d: int, k: int|
                is_kind(kind) && below9(grp) && below9(d) && below9(k) && #[trigger] only_place(old(self)@, kind, grp, d, k)
                    ==> applied(final(self)@, grow(kind, grp, k), gcol(kind, grp, k), d),
            solvable(old(self)@) ==> forall|d: int, br: int, bc: int, lr: int, lc: int|
                below9(d) && 0 <= br < 3 && 0 <= bc < 3 && #[trigger] locked_cell(old(self)@, d, br, bc, lr, lc)
                    ==> sole(final(self)@, 3 * br + lr, 3 * bc + lc, d),
            solvable(old(self)@) ==> (sum == 0 <==> final(self)@ == old(self)@),
            complete(old(self)@) && valid(old(self)@) ==> sum == 0 && final(self)@ == old(self)@,
    {
        let ghost g0 = self@;
        let mut candidates_set: Vec<(usize, usize, usize)> = Vec::new();
        // Cells with a single candidate.
        let mut q: usize = 0;
        while q < 81
            invariant
                q <= 81,
                self.wf(),
                self@ == g0,
                candidates_set@.len() <= q,
                forall|i: int| 0 <= i < candidates_set@.len() ==> queued(g0, #[trigger] candidates_set@[i]),
                forall|r: int, c: int, v: int|
                    below9(r) && below9(c) && below9(v) && 9 * r + c < q && #[trigger] sole(g0, r, c, v)
                        ==> in_queue(candidates_set@, r, c, v),
            decreases 81 - q,
        {
            let r_index = q / DIMENSIONPWR2;
            let c_index = q % DIMENSIONPWR2;
            let ghost before = candidates_set@;
            match self.unique_option(r_index, c_index) {
                Some(value) => {
                    let t = (r_index, c_index, value);
                    proof {
                        assert forall|s: Seq<bool>| #[trigger] solves(g0, s) implies sole(s, r_index as int, c_index as int, value as int) by {
                            lemma_naked_single(g0, s, r_index as int, c_index as int, value as int);
                        }
                        assert(queued(g0, t));
                    }
                    candidates_set.push(t);
                    proof {
                        assert forall|r: int, c: int, v: int|
                            below9(r) && below9(c) && below9(v) && 9 * r + c < q + 1 && #[trigger] sole(g0, r, c, v)
                                implies in_queue(candidates_set@, r, c, v) by {
                            lemma_queue_push(before, t, r, c, v);
                        }
                    }
                },
                None => {},
            }
            q = q + 1;
        }
        // Digits with a single place left in a row, a column or a block.
        let mut t: usize = 0;
        while t < 243
            invariant
                t <= 243,
                self.wf(),
                self@ == g0,
                candidates_set@.len() <= 81 + t,
                forall|i: int| 0 <= i < candidates_set@.len() ==> queued(g0, #[trigger] candidates_set@[i]),
                forall|r: int, c: int, v: int|
                    below9(r) && below9(c) && below9(v) && #[trigger] sole(g0, r, c, v)
                        ==> in_queue(candidates_set@, r, c, v),
                forall|kind: int, grp: int, d: int, k: int|
                    is_kind(kind) && below9(grp) && below9(d) && below9(k) && 81 * kind + 9 * d + grp < t
                        && #[trigger] only_place(g0, kind, grp, d, k)
                        ==> in_queue(candidates_set@, grow(kind, grp, k), gcol(kind, grp, k), d),
            decreases 243 - t,
        {
            let kind = t / 81;
            let value = (t / DIMENSIONPWR2) % DIMENSIONPWR2;
            let grp = t % DIMENSIONPWR2;
            let ghost before = candidates_set@;
            self.queue_hidden_single(kind, grp, value, &mut candidates_set);
            proof {
                assert forall|kind2: int, grp2: int, d: int, k2: int|
                    is_kind(kind2) && below9(grp2) && below9(d) && below9(k2) && 81 * kind2 + 9 * d + grp2 < t + 1
                        && #[trigger] only_place(g0, kind2, grp2, d, k2)
                        implies in_queue(candidates_set@, grow(kind2, grp2, k2), gcol(kind2, grp2, k2), d) by {
                    if 81 * kind2 + 9 * d + grp2 == t {
                        lemma_radix(t as int, kind2, d, grp2);
                    } else {
                        assert(in_queue(before, grow(kind2, grp2, k2), gcol(kind2, grp2, k2), d));
                    }
                }
            }
            t = t + 1;
        }
        // Reveal what was found, and clear it from the peers.
        let mut count_o: usize = 0;
        let mut i: usize = 0;
        while i < candidates_set.len()
            invariant
                i <= candidates_set@.len(),
                candidates_set@.len() <= 324,
                self.wf(),
                count_o <= 738 * i,
                forall|j: int| 0 <= j < candidates_set@.len() ==> queued(g0, #[trigger] candidates_set@[j]),
                sound_step(g0, self@, count_o as int),
                solvable(g0) ==> forall|j: int| 0 <= j < i ==> done(self@, #[trigger] candidates_set@[j]),
            decreases candidates_set@.len() - i,
        {
            let (r, c, v) = candidates_set[i];
            let ghost cur = self@;
            proof {
                assert(queued(g0, candidates_set@[i as int]));
            }
            let n = self.apply(r, c, v);
            proof {
                let new = self@;
                assert forall|s: Seq<bool>| #[trigger] solves(g0, s) implies solves(new, s) by {
                    assert(solves(cur, s));
                    assert(sole(s, r as int, c as int, v as int));
                }
                if solvable(g0) {
                    let s0 = choose|s: Seq<bool>| #[trigger] solves(g0, s);
                    assert(solves(cur, s0));
                    assert(sole(s0, r as int, c as int, v as int));
                    assert(cand(cur, r as int, c as int, v as int));
                    assert forall|j: int| 0 <= j < i + 1 implies done(new, #[trigger] candidates_set@[j]) by {
                        if j < i {
                            let tj = candidates_set@[j];
                            assert(queued(g0, tj));
                            assert(done(cur, tj));
                            lemma_applied_persists(cur, new, s0, tj.0 as int, tj.1 as int, tj.2 as int);
                        }
                    }
                }
            }
            count_o = count_o + n;
            i = i + 1;
        }
        let ghost mid = self@;
        // Blocks where one row and one column remain open for a digit.
        let mut count_e: usize = 0;
        let mut t: usize = 0;
        while t < 81
            invariant
                t <= 81,
                self.wf(),
                count_e <= 738 * t,
                sound_step(g0, mid, count_o as int),
                sound_step(mid, self@, count_e as int),
                solvable(g0) ==> forall|d: int, br: int, bc: int, lr: int, lc: int|
                    below9(d) && 0 <= br < 3 && 0 <= bc < 3 && 9 * d + 3 * br + bc < t
                        && #[trigger] locked_cell(g0, d, br, bc, lr, lc)
                        ==> sole(self@, 3 * br + lr, 3 * bc + lc, d),
            decreases 81 - t,
        {
            let symbol = t / DIMENSIONPWR2;
            let super_r_index = (t % DIMENSIONPWR2) / DIMENSION;
            let super_c_index = t % DIMENSION;
            let ghost cur = self@;
            let n = self.locked_candidate(symbol, super_r_index, super_c_index);
            proof {
                let new = self@;
                lemma_sound_trans(mid, cur, new, count_e as int, n as int);
                if solvable(g0) {
                    lemma_sound_trans(g0, mid, cur, count_o as int, count_e as int);
                    let s0 = choose|s: Seq<bool>| #[trigger] solves(g0, s);
                    assert(solves(cur, s0));
                    assert(solvable(cur));
                    assert(solves(new, s0));
                    assert forall|d: int, br: int, bc: int, lr: int, lc: int|
                        below9(d) && 0 <= br < 3 && 0 <= bc < 3 && 9 * d + 3 * br + bc < t + 1
                            && #[trigger] locked_cell(g0, d, br, bc, lr, lc)
                            implies sole(new, 3 * br + lr, 3 * bc + lc, d) by {
                        lemma_locked(g0, s0, br, bc, d, lr, lc);
                        if 9 * d + 3 * br + bc < t {
                            lemma_sole_persists(cur, new, s0, 3 * br + lr, 3 * bc + lc, d);
                        } else {
                            lemma_radix_block(t as int, d, br, bc);
                            lemma_locked_persists(g0, cur, s0, d, br, bc, lr, lc);
                            if !locked_cell(cur, d, br, bc, lr, lc) {
                                lemma_sole_persists(cur, new, s0, 3 * br + lr, 3 * bc + lc, d);
                            }
                        }
                    }
                }
            }
            count_e = count_e + n;
            t = t + 1;
        }
        proof {
            let g2 = self@;
            lemma_sound_trans(g0, mid, g2, count_o as int, count_e as int);
            if solvable(g0) {
                let s0 = choose|s: Seq<bool>| #[trigger] solves(g0, s);
                assert(solves(mid, s0));
                assert(solvable(mid));
                assert forall|r: int, c: int, v: int|
                    below9(r) && below9(c) && below9(v) && in_queue(candidates_set@, r, c, v)
                        implies applied(g2, r, c, v) by {
                    let j = choose|j: int| 0 <= j < candidates_set@.len() && #[trigger] is_triple(candidates_set@[j], r, c, v);
                    assert(queued(g0, candidates_set@[j]));
                    assert(done(mid, candidates_set@[j]));
                    lemma_applied_persists(mid, g2, s0, r, c, v);
                }
                assert forall|kind: int, grp: int, d: int, k: int|
                    is_kind(kind) && below9(grp) && below9(d) && below9(k) && #[trigger] only_place(g0, kind, grp, d, k)
                        implies applied(g2, grow(kind, grp, k), gcol(kind, grp, k), d) by {
                    lemma_group_cells(kind, grp, k, k);
                    assert(in_queue(candidates_set@, grow(kind, grp, k), gcol(kind, grp, k), d));
                }
            }
            if solvable(g0) {
                if count_o + count_e == 0 {
                    lemma_same_total(g2, g0);
                }
            }
            if complete(g0) && valid(g0) {
                lemma_solves_itself(g0);
                assert(solves(g2, g0));
                assert forall|r: int, c: int, v: int| below9(r) && below9(c) && below9(v)
                    implies #[trigger] cand(g2, r, c, v) == cand(g0, r, c, v) by {
                    assert(crate::model::decided(g0, r, c));
                    let w = choose|w: int| below9(w) && sole(g0, r, c, w);
                    if cand(g0, r, c, v) {
                        assert(v == w);
                        assert(sole(g0, r, c, v));
                    }
                }
                lemma_grid_ext(g2, g0);
            }
        }
        count_o + count_e
    }

    /// The position of the one cell of a group that still admits `value`, if
    /// there is exactly one.
    fn only_place_in_group(&self, kind: usize, grp: usize, value: usize) -> (res: Option<usize>)
        requires
            self.wf(),
            kind < 3,
            grp < 9,
            value < 9,
        ensures
            res matches Some(k) ==> k < 9 && only_place(self@, kind as int, grp as int, value as int, k as int),
            res is None ==> forall|k0: int| below9(k0) ==> !#[trigger] only_place(self@, kind as int, grp as int, value as int, k0),
    {
        let ghost (kd, gp, d) = (kind as int, grp as int, value as int);
        let mut num: usize = 0;
        let mut last: usize = 0;
        let ghost mut other: int = 0;
        let mut k: usize = 0;
        while k < DIMENSIONPWR2
            invariant
                k <= 9,
                kind < 3,
                grp < 9,
                value < 9,
                self.wf(),
                kd == kind as int,
                gp == grp as int,
                d == value as int,
                num <= k,
                num == 0 ==> forall|k2: int| 0 <= k2 < k ==> !#[trigger] cand(self@, grow(kd, gp, k2), gcol(kd, gp, k2), d),
                num >= 1 ==> last < k && cand(self@, grow(kd, gp, last as int), gcol(kd, gp, last as int), d),
                num == 1 ==> forall|k2: int| 0 <= k2 < k && k2 != last ==> !#[trigger] cand(self@, grow(kd, gp, k2), gcol(kd, gp, k2), d),
                num >= 2 ==> 0 <= other < k && other != last && cand(self@, grow(kd, gp, other), gcol(kd, gp, other), d),
            decreases 9 - k,
        {
            let (r, c) = cell_of(kind, grp, k);
            if self.has_option(r, c, value) {
                proof {
                    if num >= 1 && num < 2 {
                        other = last as int;
                    }
                }
                num = num + 1;
                last = k;
            }
            k = k + 1;
        }
        if num == 1 {
            Some(last)
        } else {
            None
        }
    }

    /// Reveals `v` at `(r, c)` and removes it from the peers; returns the
    /// number of candidates removed, from the cell and from its peers.
    fn apply(&mut self, r: usize, c: usize, v: usize) -> (count: usize)
        requires
            old(self).wf(),
            r < 9,
            c < 9,
            v < 9,
        ensures
            final(self).wf(),
            count <= 738,
            applied(final(self)@, r as int, c as int, v as int),
            forall|s: Seq<bool>|
                #[trigger] solves(old(self)@, s) && sole(s, r as int, c as int, v as int) ==> solves(final(self)@, s),
            cand(old(self)@, r as int, c as int, v as int) ==> shrinks(final(self)@, old(self)@) && total(
                final(self)@,
            ) + count == total(old(self)@),
    {
        let ghost g0 = self@;
        let cleared = self.clear_others(r, c, v);
        let ghost g1 = self@;
        self.raise(r, c, v);
        let ghost g15 = self@;
        let removed = self.remove_others(r, c, v);
        proof {
            let g2 = self@;
            crate::model::lemma_count_bounds(g15, 729);
            crate::model::lemma_count_bounds(g2, 729);
            assert forall|s: Seq<bool>| #[trigger] solves(g0, s) && sole(s, r as int, c as int, v as int) implies solves(g2, s) by {
                assert forall|r2: int, c2: int, w: int|
                    below9(r2) && below9(c2) && below9(w) && #[trigger] sole(s, r2, c2, w) implies cand(g2, r2, c2, w) by {
                    if w == v && peers(r as int, c as int, r2, c2) {
                        assert(!(sole(s, r as int, c as int, v as int) && sole(s, r2, c2, w)));
                    }
                }
            }
            if cand(g0, r as int, c as int, v as int) {
                assert(cand(g1, r as int, c as int, v as int));
                assert(g15 == g1);
            }
            assert(sole(g2, r as int, c as int, v as int));
        }
        cleared + removed
    }

    /// Whether some cell of row `r`, outside block column `bc`, is decided to `symbol`.
    fn marked_row(&self, r: usize, bc: usize, symbol: usize) -> (b: bool)
        requires
            self.wf(),
            r < 9,
            bc < 3,
            symbol < 9,
        ensures
            b == row_marked(self@, r as int, bc as int, symbol as int),
    {
        let mut b = false;
        let mut c: usize = 0;
        while c < DIMENSIONPWR2
            invariant
                c <= 9,
                r < 9,
                symbol < 9,
                self.wf(),
                b == exists|c2: int| 0 <= c2 < c && c2 / 3 != bc && #[trigger] sole(self@, r as int, c2, symbol as int),
            decreases 9 - c,
        {
            if c / DIMENSION != bc {
                match self.unique_option(r, c) {
                    Some(val) => {
                        if val == symbol {
                            b = true;
                        }
                    },
                    None => {},
                }
            }
            c = c + 1;
        }
        b
    }

    /// Whether some cell of column `c`, outside block row `br`, is decided to `symbol`.
    fn marked_column(&self, c: usize, br: usize, symbol: usize) -> (b: bool)
        requires
            self.wf(),
            c < 9,
            br < 3,
            symbol < 9,
        ensures
            b == col_marked(self@, c as int, br as int, symbol as int),
    {
        let mut b = false;
        let mut r: usize = 0;
        while r < DIMENSIONPWR2
            invariant
                r <= 9,
                c < 9,
                symbol < 9,
                self.wf(),
                b == exists|r2: int| 0 <= r2 < r && r2 / 3 != br && #[trigger] sole(self@, r2, c as int, symbol as int),
            decreases 9 - r,
        {
            if r / DIMENSION != br {
                match self.unique_option(r, c) {
                    Some(val) => {
                        if val == symbol {
                            b = true;
                        }
                    },
                    None => {},
                }
            }
            r = r + 1;
        }
        b
    }

    /// Checks block `(sr, sc)` for a cell that must hold `symbol` because every
    /// other row and column of the block already has `symbol` decided outside
    /// the block; reveals it. Returns the number of candidates removed from
    /// its peers.
    fn locked_candidate(&mut self, symbol: usize, sr: usize, sc: usize) -> (count: usize)
        requires
            old(self).wf(),
            symbol < 9,
            sr < 3,
            sc < 3,
        ensures
            final(self).wf(),
            count <= 738,
            sound_step(old(self)@, final(self)@, count as int),
            forall|lr: int, lc: int| #[trigger] locked_cell(old(self)@, symbol as int, sr as int, sc as int, lr, lc)
                ==> applied(final(self)@, 3 * sr + lr, 3 * sc + lc, symbol as int),
            (forall|lr: int, lc: int| !#[trigger] locked_cell(old(self)@, symbol as int, sr as int, sc as int, lr, lc))
                ==> final(self)@ == old(self)@ && count == 0,
    {
        let ghost g0 = self@;
        let mut unique_row: Vec<bool> = Vec::new();
        let mut unique_column: Vec<bool> = Vec::new();
        let mut i: usize = 0;
        while i < DIMENSION
            invariant
                i <= 3,
                symbol < 9,
                sr < 3,
                sc < 3,
                self.wf(),
                self@ == g0,
                unique_row@.len() == i,
                unique_column@.len() == i,
                forall|j: int| 0 <= j < i ==> unique_row@[j] == row_marked(g0, 3 * sr + j, sc as int, symbol as int),
                forall|j: int| 0 <= j < i ==> unique_column@[j] == col_marked(g0, 3 * sc + j, sr as int, symbol as int),
            decreases 3 - i,
        {
            let b = self.marked_row(DIMENSION * sr + i, sc, symbol);
            unique_row.push(b);
            let b = self.marked_column(DIMENSION * sc + i, sr, symbol);
            unique_column.push(b);
            i = i + 1;
        }
        let last_r = only_unmarked(&unique_row);
        let last_c = only_unmarked(&unique_column);
        match (last_r, last_c) {
            (Some(lr), Some(lc)) => {
                let r = DIMENSION * sr + lr;
                let c = DIMENSION * sc + lc;
                if self.unique_option(r, c).is_none() {
                    proof {
                        assert forall|i2: int| 0 <= i2 < 3 implies (i2 != lr <==> #[trigger] row_marked(g0, 3 * sr + i2, sc as int, symbol as int)) by {
                            assert(unique_row@[i2] == row_marked(g0, 3 * sr + i2, sc as int, symbol as int));
                        }
                        assert forall|j2: int| 0 <= j2 < 3 implies (j2 != lc <==> #[trigger] col_marked(g0, 3 * sc + j2, sr as int, symbol as int)) by {
                            assert(unique_column@[j2] == col_marked(g0, 3 * sc + j2, sr as int, symbol as int));
                        }
                        assert(locked_cell(g0, symbol as int, sr as int, sc as int, lr as int, lc as int));
                        assert forall|s: Seq<bool>| #[trigger] solves(g0, s) implies sole(s, r as int, c as int, symbol as int) by {
                            lemma_locked(g0, s, sr as int, sc as int, symbol as int, lr as int, lc as int);
                        }
                    }
                    let count = self.apply(r, c, symbol);
                    proof {
                        if solvable(g0) {
                            let s = choose|s: Seq<bool>| #[trigger] solves(g0, s);
                            assert(sole(s, r as int, c as int, symbol as int));
                        }
                        assert forall|lr2: int, lc2: int| #[trigger] locked_cell(g0, symbol as int, sr as int, sc as int, lr2, lc2)
                            implies lr2 == lr && lc2 == lc by {
                            assert(!row_marked(g0, 3 * sr + lr2, sc as int, symbol as int));
                            assert(!col_marked(g0, 3 * sc + lc2, sr as int, symbol as int));
                        }
                    }
                    return count;
                }
            },
            _ => {},
        }
        proof {
            assert forall|lr2: int, lc2: int| !#[trigger] locked_cell(g0, symbol as int, sr as int, sc as int, lr2, lc2) by {
                if locked_cell(g0, symbol as int, sr as int, sc as int, lr2, lc2) {
                    assert(!unique_row@[lr2]);
                    assert(!unique_column@[lc2]);
                }
            }
        }
        0
    }
}

/// The one index whose flag is down, if exactly one of the three is.
fn only_unmarked(marks: &Vec<bool>) -> (res: Option<usize>)
    requires
        marks@.len() == 3,
    ensures
        res matches Some(i) ==> i < 3 && !marks@[i as int] && forall|j: int| 0 <= j < 3 && j != i ==> marks@[j],
        res is None ==> forall|i: int| 0 <= i < 3 && !marks@[i] ==> exists|j: int| 0 <= j < 3 && j != i && !marks@[j],
{
    let mut num: usize = 0;
    let mut last: usize = 0;
    let ghost mut other: int = 0;
    let mut k: usize = 0;
    while k < DIMENSION
        invariant
            k <= 3,
            marks@.len() == 3,
            num <= k,
            num == 0 ==> forall|j: int| 0 <= j < k ==> marks@[j],
            num >= 1 ==> last < k && !marks@[last as int],
            num == 1 ==> forall|j: int| 0 <= j < k && j != last ==> marks@[j],
            num >= 2 ==> 0 <= other < k && other != last && !marks@[other],
        decreases 3 - k,
    {
        if !marks[k] {
            proof {
                if num == 1 {
                    other = last as int;
                }
            }
            num = num + 1;
            last = k;
        }
        k = k + 1;
    }
    if num == 1 {
        Some(last)
    } else {
        None
    }
}

} // verus!
