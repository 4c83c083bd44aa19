//! The puzzle generator.
use vstd::prelude::*;
use crate::grid::Sudoku;
use crate::logic::{lemma_complete_solution_unique, lemma_row_closes, lemma_sole_persists};
use crate::model::{
    below9, cand, clues_of, complete, decided, decided_count, empty_cell, lemma_cell_count_sole,
    lemma_count_bounds, lemma_decided_count, lemma_decided_count_bound, lemma_decided_count_none,
    lemma_decided_count_step, lemma_flag_index, lemma_total_drop, lemma_zero_count, listed,
    num_options, row_filled, shrinks, sole, solvable, solves, total, valid,
};
use crate::shuffle::random_below;

verus! {

/// A puzzle for the solved grid `field`: reveals cells of `field` one by one,
/// each time driving the elimination engine to a fixed point, until the
/// engine has decided every cell. The revealed cells are the clues.
///
/// Each reveal picks at random among the leading quarter of the cells with
/// the most candidates left. The result holds at least one clue, and at
/// least one cell stays empty: fewer than 81 clues, one per reveal. Each
/// clue is the only candidate of its cell and the digit of `field` there,
/// and the clues determine the grid: `field` is the only solved, valid grid
/// that holds every clue.
pub fn create_puzzle(field: &Sudoku) -> (problem: Sudoku)
    requires
        field.wf(),
        complete(field@),
        valid(field@),
    ensures
        problem.wf(),
        clues_of(problem@, field@),
        exists|r: int, c: int| below9(r) && below9(c) && #[trigger] decided(problem@, r, c),
        exists|r: int, c: int| below9(r) && below9(c) && #[trigger] empty_cell(problem@, r, c),
        decided_count(problem@, 81) < 81,
        forall|s: Seq<bool>|
            s.len() == 729 && complete(s) && valid(s) && #[trigger] clues_of(problem@, s) ==> s == field@,
{
    let mut space = Sudoku::new(true);
    let mut problem = Sudoku::new(false);
    let ghost mut iterated = false;
    let ghost mut reveals: int = 0;
    proof {
        assert(clues_of(problem@, field@));
        assert(solves(space@, field@));
        assert forall|r: int, c: int| below9(r) && below9(c) implies !#[trigger] row_filled(problem@, r, c) by {
            let c2: int = if c == 0 { 1 } else { 0 };
            if decided(problem@, r, c2) {
                let v = choose|v: int| below9(v) && sole(problem@, r, c2, v);
                lemma_flag_index(r, c2, v);
            }
        }
        assert forall|y: int| 0 <= y < 81 implies !#[trigger] decided(problem@, y / 9, y % 9) by {
            if decided(problem@, y / 9, y % 9) {
                let v = choose|v: int| below9(v) && sole(problem@, y / 9, y % 9, v);
                lemma_flag_index(y / 9, y % 9, v);
            }
        }
        lemma_decided_count_none(problem@, 81);
        assert forall|s: Seq<bool>|
            s.len() == 729 && complete(s) && valid(s) && #[trigger] clues_of(problem@, s) implies solves(space@, s) by {
            assert forall|r: int, c: int, v: int| below9(r) && below9(c) && below9(v) && #[trigger] sole(s, r, c, v)
                implies cand(space@, r, c, v) by {
                lemma_flag_index(r, c, v);
            }
        }
    }
    while !space.unique_sudoku()
        invariant
            field.wf(),
            complete(field@),
            valid(field@),
            space.wf(),
            problem.wf(),
            solves(space@, field@),
            clues_of(problem@, field@),
            forall|r: int, c: int, v: int|
                below9(r) && below9(c) && below9(v) && #[trigger] cand(problem@, r, c, v) ==> sole(space@, r, c, v),
            !iterated ==> forall|i: int| 0 <= i < 729 ==> space@[i],
            iterated ==> exists|r: int, c: int| below9(r) && below9(c) && #[trigger] decided(problem@, r, c),
            iterated ==> exists|r: int, c: int| below9(r) && below9(c) && #[trigger] empty_cell(problem@, r, c),
            forall|r: int, c: int| below9(r) && below9(c) && #[trigger] row_filled(problem@, r, c) ==> decided(space@, r, c),
            reveals == decided_count(problem@, 81),
            reveals < 81 || !iterated,
            forall|s: Seq<bool>|
                s.len() == 729 && complete(s) && valid(s) && #[trigger] clues_of(problem@, s) ==> solves(space@, s),
        decreases total(space@),
    {
        let ghost g0 = space@;
        let ghost (xr, xc) = choose|r: int, c: int| below9(r) && below9(c) && !#[trigger] decided(g0, r, c);
        let undec_cells = space.undecided_cells();
        proof {
            let (r, c) = (xr, xc);
            assert(decided(field@, r, c));
            let v = choose|v: int| below9(v) && sole(field@, r, c, v);
            assert(cand(g0, r, c, v));
            if num_options(g0, r, c) <= 0 {
                lemma_zero_count(g0, r, c, 9);
            }
            lemma_decided_count(g0, r, c);
            assert(listed(undec_cells@, r, c));
        }
        let i = random_below(0, 1 + undec_cells.len() / 4);
        let (ri, ci, _) = undec_cells[i];
        proof {
            assert(undec_cells@[i as int].0 < 9 && undec_cells@[i as int].1 < 9);
            assert(decided(field@, ri as int, ci as int));
        }
        let ghost d = choose|v: int| below9(v) && sole(field@, ri as int, ci as int, v);
        let mut value: usize = 0;
        while !field.has_option(ri, ci, value)
            invariant
                field.wf(),
                ri < 9,
                ci < 9,
                below9(d),
                sole(field@, ri as int, ci as int, d),
                value <= d,
            decreases d - value,
        {
            value = value + 1;
        }
        proof {
            assert(value == d);
            assert(cand(g0, ri as int, ci as int, d));
            if sole(g0, ri as int, ci as int, d) {
                lemma_cell_count_sole(g0, ri as int, ci as int, d, 9);
            }
        }
        let ghost clues0 = problem@;
        problem.set(ri, ci, value);
        space.set(ri, ci, value);
        proof {
            let w = choose|w: int| below9(w) && w != d && #[trigger] cand(g0, ri as int, ci as int, w);
            assert(shrinks(space@, g0));
            lemma_total_drop(space@, g0, ri as int, ci as int, w);
            assert(solves(space@, field@));
            assert(sole(problem@, ri as int, ci as int, d));
            assert(decided(problem@, ri as int, ci as int));
            let x = 9 * ri + ci;
            assert(x / 9 == ri && x % 9 == ci);
            if decided(clues0, ri as int, ci as int) {
                let v = choose|v: int| below9(v) && sole(clues0, ri as int, ci as int, v);
                assert(sole(g0, ri as int, ci as int, v));
                lemma_cell_count_sole(g0, ri as int, ci as int, v, 9);
            }
            assert forall|y: int| 0 <= y < 81 && y != x implies #[trigger] decided(clues0, y / 9, y % 9) == decided(problem@, y / 9, y % 9) by {
                let (yr, yc) = (y / 9, y % 9);
                assert(yr != ri || yc != ci);
                assert forall|v: int| below9(v) implies #[trigger] sole(clues0, yr, yc, v) == sole(problem@, yr, yc, v) by {
                    assert forall|w: int| below9(w) implies cand(clues0, yr, yc, w) == #[trigger] cand(problem@, yr, yc, w) by {}
                }
                if decided(clues0, yr, yc) {
                    let v = choose|v: int| below9(v) && sole(clues0, yr, yc, v);
                    assert(sole(problem@, yr, yc, v));
                }
                if decided(problem@, yr, yc) {
                    let v = choose|v: int| below9(v) && sole(problem@, yr, yc, v);
                    assert(sole(clues0, yr, yc, v));
                }
            }
            lemma_decided_count_step(clues0, problem@, 81, x);
            reveals = reveals + 1;
            assert(!row_filled(clues0, xr, xc));
            let c2 = choose|c2: int| below9(c2) && c2 != xc && !#[trigger] decided(clues0, xr, c2);
            if ri as int == xr && ci as int == c2 {
                assert forall|v: int| below9(v) implies !#[trigger] cand(problem@, xr, xc, v) by {
                    if cand(clues0, xr, xc, v) {
                        assert(sole(g0, xr, xc, v));
                    }
                }
                assert(empty_cell(problem@, xr, xc));
            } else {
                assert forall|v: int| below9(v) implies !#[trigger] cand(problem@, xr, c2, v) by {
                    if cand(clues0, xr, c2, v) {
                        assert(sole(clues0, xr, c2, v));
                    }
                }
                assert(empty_cell(problem@, xr, c2));
            }
            let e = choose|r: int, c: int| below9(r) && below9(c) && #[trigger] empty_cell(problem@, r, c);
            assert(!decided(problem@, (9 * e.0 + e.1) / 9, (9 * e.0 + e.1) % 9)) by {
                assert((9 * e.0 + e.1) / 9 == e.0 && (9 * e.0 + e.1) % 9 == e.1);
                if decided(problem@, e.0, e.1) {
                    let v = choose|v: int| below9(v) && sole(problem@, e.0, e.1, v);
                    assert(cand(problem@, e.0, e.1, v));
                }
            }
            lemma_decided_count_bound(problem@, 81, 9 * e.0 + e.1);
        }
        proof {
            assert forall|s: Seq<bool>|
                s.len() == 729 && complete(s) && valid(s) && #[trigger] clues_of(problem@, s) implies solves(space@, s) by {
                assert forall|r: int, c: int, v: int| below9(r) && below9(c) && below9(v) && #[trigger] cand(clues0, r, c, v)
                    implies sole(clues0, r, c, v) && sole(s, r, c, v) by {
                    assert(sole(clues0, r, c, v));
                    assert(!(r == ri && c == ci));
                    assert(cand(problem@, r, c, v));
                }
                assert(clues_of(clues0, s));
                assert(solves(g0, s));
                assert(cand(problem@, ri as int, ci as int, d));
                assert(sole(s, ri as int, ci as int, d));
                assert forall|r: int, c: int, v: int| below9(r) && below9(c) && below9(v) && #[trigger] sole(s, r, c, v)
                    implies cand(space@, r, c, v) by {
                    if r == ri && c == ci {
                        assert(v == d);
                    }
                }
            }
        }
        let ghost g1 = space@;
        loop
            invariant
                field.wf(),
                complete(field@),
                valid(field@),
                space.wf(),
                problem.wf(),
                solves(space@, field@),
                clues_of(problem@, field@),
                shrinks(space@, g1),
                total(space@) <= total(g1),
                total(g1) < total(g0),
                forall|s: Seq<bool>|
                    s.len() == 729 && complete(s) && valid(s) && #[trigger] clues_of(problem@, s) ==> solves(space@, s),
                forall|r: int, c: int, v: int|
                    below9(r) && below9(c) && below9(v) && #[trigger] cand(problem@, r, c, v) ==> sole(space@, r, c, v),
            ensures
                solves(space@, field@),
                clues_of(problem@, field@),
                forall|r: int, c: int| below9(r) && below9(c) && #[trigger] row_filled(problem@, r, c) ==> decided(space@, r, c),
                total(space@) < total(g0),
                forall|s: Seq<bool>|
                    s.len() == 729 && complete(s) && valid(s) && #[trigger] clues_of(problem@, s) ==> solves(space@, s),
                forall|r: int, c: int, v: int|
                    below9(r) && below9(c) && below9(v) && #[trigger] cand(problem@, r, c, v) ==> sole(space@, r, c, v),
            decreases total(space@),
        {
            let ghost g2 = space@;
            let n = space.reduce_options();
            proof {
                assert(solves(g2, field@));
                assert(solvable(g2));
                lemma_count_bounds(space@, 729);
                assert(solves(space@, field@));
                assert forall|r: int, c: int, v: int|
                    below9(r) && below9(c) && below9(v) && #[trigger] cand(problem@, r, c, v) implies sole(space@, r, c, v) by {
                    assert(sole(field@, r, c, v));
                    lemma_sole_persists(g2, space@, field@, r, c, v);
                }
                assert forall|r: int, c: int| below9(r) && below9(c) && #[trigger] row_filled(problem@, r, c) implies decided(space@, r, c) by {
                    assert forall|c2: int| below9(c2) && c2 != c implies #[trigger] decided(g2, r, c2) by {
                        assert(decided(problem@, r, c2));
                        let v = choose|v: int| below9(v) && sole(problem@, r, c2, v);
                        assert(cand(problem@, r, c2, v));
                    }
                    lemma_row_closes(g2, space@, field@, r, c);
                }
            }
            if n == 0 {
                break;
            }
        }
        proof {
            iterated = true;
            lemma_count_bounds(space@, 729);
        }
    }
    proof {
        assert forall|s: Seq<bool>|
            s.len() == 729 && complete(s) && valid(s) && #[trigger] clues_of(problem@, s) implies s == field@ by {
            lemma_complete_solution_unique(space@, s);
            lemma_complete_solution_unique(space@, field@);
        }
        lemma_decided_count_bound(problem@, 81, 0);
        if !iterated {
            assert(decided(space@, 0, 0));
            let v = choose|v: int| below9(v) && sole(space@, 0, 0, v);
            let w = if v == 0 { 1int } else { 0int };
            assert(cand(space@, 0, 0, w));
        }
    }
    problem
}

} // verus!
