//! Whole-grid questions: validity, completeness, and agreement of two grids.
use vstd::prelude::*;
use crate::engine::cell_of;
use crate::grid::Sudoku;
use crate::logic::lemma_valid_groups;
use crate::model::{
    below9, complete, count_both, decided, decided_count, gcol, group_ok, grow, is_kind, sole, valid,
    DIMENSIONPWR2, NUM_FLAGS,
};

verus! {

impl Sudoku {
    /// Whether two cells of a group are decided to the same digit.
    fn group_has_repeat(&self, kind: usize, grp: usize) -> (rep: bool)
        requires
            self.wf(),
            kind < 3,
            grp < 9,
        ensures
            rep == !group_ok(self@, kind as int, grp as int),
    {
        let ghost (kd, gp) = (kind as int, grp as int);
        let mut seen: Vec<bool> = vec![false; DIMENSIONPWR2];
        let mut k: usize = 0;
        while k < DIMENSIONPWR2
            invariant
                k <= 9,
                kind < 3,
                grp < 9,
                kd == kind as int,
                gp == grp as int,
                self.wf(),
                seen@.len() == 9,
                forall|v: int| below9(v) ==> seen@[v] == exists|k2: int|
                    0 <= k2 < k && #[trigger] sole(self@, grow(kd, gp, k2), gcol(kd, gp, k2), v),
                forall|k1: int, k2: int, v: int|
                    0 <= k1 < k && 0 <= k2 < k && below9(v) && k1 != k2 ==> !(#[trigger] sole(
                        self@,
                        grow(kd, gp, k1),
                        gcol(kd, gp, k1),
                        v,
                    ) && #[trigger] sole(self@, grow(kd, gp, k2), gcol(kd, gp, k2), v)),
            decreases 9 - k,
        {
            let (r, c) = cell_of(kind, grp, k);
            match self.unique_option(r, c) {
                Some(v) => {
                    if seen[v] {
                        return true;
                    }
                    seen.set(v, true);
                },
                None => {},
            }
            k = k + 1;
        }
        false
    }

    /// Whether no digit is decided twice in any row, column or block. Cells
    /// with more than one candidate are not compared.
    pub fn has_only_unique_options(&self) -> (ok: bool)
        requires
            self.wf(),
        ensures
            ok == valid(self@),
    {
        proof {
            lemma_valid_groups(self@);
        }
        let mut t: usize = 0;
        while t < 27
            invariant
                t <= 27,
                self.wf(),
                valid(self@) <==> forall|kind: int, grp: int|
                    is_kind(kind) && below9(grp) ==> #[trigger] group_ok(self@, kind, grp),
                forall|kind: int, grp: int|
                    is_kind(kind) && below9(grp) && 9 * kind + grp < t ==> #[trigger] group_ok(self@, kind, grp),
            decreases 27 - t,
        {
            if self.group_has_repeat(t / DIMENSIONPWR2, t % DIMENSIONPWR2) {
                return false;
            }
            t = t + 1;
        }
        true
    }

    /// Whether every cell holds exactly one candidate.
    pub fn unique_sudoku(&self) -> (unique: bool)
        requires
            self.wf(),
        ensures
            unique == complete(self@),
    {
        let mut unique = true;
        let mut q: usize = 0;
        while q < 81
            invariant
                q <= 81,
                self.wf(),
                unique == forall|r: int, c: int|
                    below9(r) && below9(c) && 9 * r + c < q ==> #[trigger] decided(self@, r, c),
            decreases 81 - q,
        {
            let r = q / DIMENSIONPWR2;
            let c = q % DIMENSIONPWR2;
            let t = self.unique_option(r, c).is_some();
            unique = unique && t;
            q = q + 1;
        }
        unique
    }

    /// Number of revealed cells: those with exactly one candidate.
    pub fn revealed_count(&self) -> (count: usize)
        requires
            self.wf(),
        ensures
            count == decided_count(self@, 81),
            count <= 81,
    {
        let mut count: usize = 0;
        let mut q: usize = 0;
        while q < 81
            invariant
                q <= 81,
                self.wf(),
                count == decided_count(self@, q as int),
                count <= q,
            decreases 81 - q,
        {
            if self.unique_option(q / DIMENSIONPWR2, q % DIMENSIONPWR2).is_some() {
                count = count + 1;
            }
            q = q + 1;
        }
        count
    }
}

/// Number of (cell, digit) pairs that are candidates in both grids.
pub fn count_equal_options(a: &Sudoku, b: &Sudoku) -> (count: usize)
    requires
        a.wf(),
        b.wf(),
    ensures
        count == count_both(a@, b@, 729),
{
    let mut count: usize = 0;
    let mut i: usize = 0;
    while i < NUM_FLAGS
        invariant
            i <= 729,
            a.wf(),
            b.wf(),
            count == count_both(a@, b@, i as int),
            count <= i,
        decreases 729 - i,
    {
        if a.flag(i) && b.flag(i) {
            count = count + 1;
        }
        i = i + 1;
    }
    count
}

} // verus!
