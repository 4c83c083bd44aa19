//! Facts about groups and solved grids on which the deduction rules rest.
use vstd::prelude::*;
use vstd::set_lib::{lemma_int_range, lemma_map_size, lemma_subset_equality, set_int_range};
use crate::model::{
    applied, below9, cand, lemma_grid_ext, col_marked, complete, decided, gcol, group_ok, grow, is_kind, peers,
    locked_cell, row_filled, row_marked, shrinks, sole, solvable, solves, sound_step, valid,
};

verus! {

/// The cells of a group lie in the grid, and two of its positions are peers.
pub proof fn lemma_group_cells(kind: int, grp: int, k1: int, k2: int)
    requires
        is_kind(kind),
        below9(grp),
        below9(k1),
        below9(k2),
    ensures
        below9(grow(kind, grp, k1)),
        below9(gcol(kind, grp, k1)),
        k1 != k2 ==> peers(
            grow(kind, grp, k1),
            gcol(kind, grp, k1),
            grow(kind, grp, k2),
            gcol(kind, grp, k2),
        ),
{
}

/// The position of a cell in its block.
pub proof fn lemma_block_of(r: int, c: int)
    requires
        below9(r),
        below9(c),
    ensures
        below9(3 * (r / 3) + c / 3),
        below9(3 * (r % 3) + c % 3),
        grow(2, 3 * (r / 3) + c / 3, 3 * (r % 3) + c % 3) == r,
        gcol(2, 3 * (r / 3) + c / 3, 3 * (r % 3) + c % 3) == c,
{
}

/// A grid is valid exactly when each of its groups is.
pub proof fn lemma_valid_groups(g: Seq<bool>)
    ensures
        valid(g) <==> forall|kind: int, grp: int|
            is_kind(kind) && below9(grp) ==> #[trigger] group_ok(g, kind, grp),
{
    if valid(g) {
        assert forall|kind: int, grp: int| is_kind(kind) && below9(grp) implies #[trigger] group_ok(
            g,
            kind,
            grp,
        ) by {
            assert forall|k1: int, k2: int, v: int|
                below9(k1) && below9(k2) && below9(v) && k1 != k2 implies !(#[trigger] sole(
                g,
                grow(kind, grp, k1),
                gcol(kind, grp, k1),
                v,
            ) && #[trigger] sole(g, grow(kind, grp, k2), gcol(kind, grp, k2), v)) by {
                lemma_group_cells(kind, grp, k1, k2);
                lemma_group_cells(kind, grp, k2, k1);
            }
        }
    }
    if forall|kind: int, grp: int| is_kind(kind) && below9(grp) ==> #[trigger] group_ok(g, kind, grp) {
        assert forall|r1: int, c1: int, r2: int, c2: int, v: int|
            below9(r1) && below9(c1) && below9(r2) && below9(c2) && below9(v) && peers(
                r1,
                c1,
                r2,
                c2,
            ) implies !(#[trigger] sole(g, r1, c1, v) && #[trigger] sole(g, r2, c2, v)) by {
            if sole(g, r1, c1, v) && sole(g, r2, c2, v) {
                if r1 == r2 {
                    assert(group_ok(g, 0, r1));
                    assert(grow(0, r1, c1) == r1 && gcol(0, r1, c1) == c1);
                    assert(grow(0, r1, c2) == r2 && gcol(0, r1, c2) == c2);
                } else if c1 == c2 {
                    assert(group_ok(g, 1, c1));
                    assert(grow(1, c1, r1) == r1 && gcol(1, c1, r1) == c1);
                    assert(grow(1, c1, r2) == r2 && gcol(1, c1, r2) == c2);
                } else {
                    lemma_block_of(r1, c1);
                    lemma_block_of(r2, c2);
                    let grp = 3 * (r1 / 3) + c1 / 3;
                    assert(group_ok(g, 2, grp));
                    assert(sole(g, grow(2, grp, 3 * (r1 % 3) + c1 % 3), gcol(2, grp, 3 * (r1 % 3) + c1 % 3), v));
                    assert(sole(g, grow(2, grp, 3 * (r2 % 3) + c2 % 3), gcol(2, grp, 3 * (r2 % 3) + c2 % 3), v));
                }
            }
        }
    }
}

/// The digit of a decided cell.
pub open spec fn digit_at(s: Seq<bool>, r: int, c: int) -> int {
    choose|v: int| below9(v) && sole(s, r, c, v)
}

/// Each digit appears in each group of a solved grid.
pub proof fn lemma_every_digit(s: Seq<bool>, kind: int, grp: int, d: int)
    requires
        complete(s),
        valid(s),
        is_kind(kind),
        below9(grp),
        below9(d),
    ensures
        exists|k: int| below9(k) && #[trigger] sole(s, grow(kind, grp, k), gcol(kind, grp, k), d),
{
    let f = |k: int| digit_at(s, grow(kind, grp, k), gcol(kind, grp, k));
    let dom = set_int_range(0, 9);
    lemma_int_range(0, 9);
    assert forall|k: int| below9(k) implies below9(#[trigger] f(k)) && sole(
        s,
        grow(kind, grp, k),
        gcol(kind, grp, k),
        f(k),
    ) by {
        lemma_group_cells(kind, grp, k, k);
        assert(decided(s, grow(kind, grp, k), gcol(kind, grp, k)));
    }
    assert forall|k1: int, k2: int| dom.contains(k1) && dom.contains(k2) && #[trigger] f(k1) == #[trigger] f(
        k2,
    ) implies k1 == k2 by {
        lemma_group_cells(kind, grp, k1, k2);
        assert(below9(f(k1)) && below9(f(k2)));
    }
    let img = dom.map(f);
    lemma_map_size(dom, img, f);
    assert(img.subset_of(dom)) by {
        assert forall|x: int| img.contains(x) implies dom.contains(x) by {
            let k = choose|k: int| dom.contains(k) && f(k) == x;
            assert(below9(f(k)));
        }
    }
    lemma_subset_equality(img, dom);
    assert(dom.contains(d));
    assert(img.contains(d));
    let k = choose|k: int| dom.contains(k) && f(k) == d;
    assert(sole(s, grow(kind, grp, k), gcol(kind, grp, k), f(k)));
}

/// A digit that has one place left in a group goes there in every solution.
pub proof fn lemma_hidden_single(g: Seq<bool>, s: Seq<bool>, kind: int, grp: int, d: int, k0: int)
    requires
        solves(g, s),
        is_kind(kind),
        below9(grp),
        below9(d),
        below9(k0),
        forall|k: int| below9(k) && k != k0 ==> !#[trigger] cand(g, grow(kind, grp, k), gcol(kind, grp, k), d),
    ensures
        sole(s, grow(kind, grp, k0), gcol(kind, grp, k0), d),
{
    lemma_every_digit(s, kind, grp, d);
    let k = choose|k: int| below9(k) && #[trigger] sole(s, grow(kind, grp, k), gcol(kind, grp, k), d);
    lemma_group_cells(kind, grp, k, k0);
    assert(cand(g, grow(kind, grp, k), gcol(kind, grp, k), d));
}

/// A cell with one candidate left holds it in every solution.
pub proof fn lemma_naked_single(g: Seq<bool>, s: Seq<bool>, r: int, c: int, v: int)
    requires
        solves(g, s),
        below9(r),
        below9(c),
        below9(v),
        sole(g, r, c, v),
    ensures
        sole(s, r, c, v),
{
    assert(decided(s, r, c));
    let w = choose|w: int| below9(w) && sole(s, r, c, w);
    assert(cand(g, r, c, w));
}

/// A solved grid that is a solution of itself.
pub proof fn lemma_solves_itself(s: Seq<bool>)
    requires
        s.len() == 729,
        complete(s),
        valid(s),
    ensures
        solves(s, s),
{
}

/// A grid that keeps every digit of a solved grid, once each of its cells
/// is decided, is that solved grid: propagation that loses no solution can
/// only end complete on the grid the clues came from.
pub proof fn lemma_complete_solution_unique(g: Seq<bool>, s: Seq<bool>)
    requires
        g.len() == 729,
        solves(g, s),
        complete(g),
    ensures
        g == s,
{
    assert forall|r: int, c: int, w: int| below9(r) && below9(c) && below9(w) implies #[trigger] cand(g, r, c, w)
        == cand(s, r, c, w) by {
        assert(decided(g, r, c));
        assert(decided(s, r, c));
        let v = choose|v: int| below9(v) && sole(g, r, c, v);
        let d = choose|d: int| below9(d) && sole(s, r, c, d);
        assert(cand(g, r, c, d));
    }
    lemma_grid_ext(g, s);
}

/// Two sound steps in a row make a sound step.
pub proof fn lemma_sound_trans(a: Seq<bool>, b: Seq<bool>, c: Seq<bool>, n1: int, n2: int)
    requires
        sound_step(a, b, n1),
        sound_step(b, c, n2),
    ensures
        sound_step(a, c, n1 + n2),
{
    assert forall|s: Seq<bool>| #[trigger] solves(a, s) implies solves(c, s) by {
        assert(solves(b, s));
    }
    if solvable(a) {
        let s = choose|s: Seq<bool>| #[trigger] solves(a, s);
        assert(solves(b, s));
        assert(solvable(b));
    }
}

/// A deduction that was carried out stays so while candidates only go and
/// a solution holding it survives.
pub proof fn lemma_applied_persists(a: Seq<bool>, b: Seq<bool>, s: Seq<bool>, r: int, c: int, v: int)
    requires
        below9(r),
        below9(c),
        below9(v),
        applied(a, r, c, v),
        shrinks(b, a),
        solves(b, s),
        sole(s, r, c, v),
    ensures
        applied(b, r, c, v),
{
    assert forall|w: int| below9(w) && w != v implies !#[trigger] cand(b, r, c, w) by {
        if cand(b, r, c, w) {
            assert(cand(a, r, c, w));
        }
    }
    assert forall|r2: int, c2: int| below9(r2) && below9(c2) && peers(r, c, r2, c2) implies !#[trigger] cand(
        b,
        r2,
        c2,
        v,
    ) by {
        if cand(b, r2, c2, v) {
            assert(cand(a, r2, c2, v));
        }
    }
}

/// A decided cell stays decided while candidates only go and a solution
/// holding its digit survives.
pub proof fn lemma_sole_persists(a: Seq<bool>, b: Seq<bool>, s: Seq<bool>, r: int, c: int, v: int)
    requires
        below9(r),
        below9(c),
        below9(v),
        sole(a, r, c, v),
        shrinks(b, a),
        solves(b, s),
        sole(s, r, c, v),
    ensures
        sole(b, r, c, v),
{
    assert forall|w: int| below9(w) && w != v implies !#[trigger] cand(b, r, c, w) by {
        if cand(b, r, c, w) {
            assert(cand(a, r, c, w));
        }
    }
}

/// Once the eight other cells of a row are decided and their digits cleared
/// from their peers, the last cell of the row is decided too.
pub proof fn lemma_row_closes(a: Seq<bool>, b: Seq<bool>, s: Seq<bool>, r: int, c: int)
    requires
        below9(r),
        below9(c),
        solves(a, s),
        solves(b, s),
        row_filled(a, r, c),
        forall|c2: int, v: int| below9(c2) && below9(v) && #[trigger] sole(a, r, c2, v) ==> applied(b, r, c2, v),
    ensures
        decided(b, r, c),
{
    assert(decided(s, r, c));
    let d = choose|v: int| below9(v) && sole(s, r, c, v);
    assert forall|w: int| below9(w) && w != d implies !#[trigger] cand(b, r, c, w) by {
        lemma_every_digit(s, 0, r, w);
        let k = choose|k: int| below9(k) && #[trigger] sole(s, grow(0, r, k), gcol(0, r, k), w);
        assert(sole(s, r, k, w));
        assert(k != c);
        assert(decided(a, r, k));
        let v = choose|v: int| below9(v) && sole(a, r, k, v);
        assert(cand(a, r, k, w));
        assert(applied(b, r, k, v));
        assert(peers(r, k, r, c));
    }
    assert(sole(b, r, c, d));
}

/// Where exactly one row and one column of a block are not yet excluded for
/// `d` by decided cells outside the block, every solution holds `d` at their
/// crossing.
pub proof fn lemma_locked(
    g: Seq<bool>,
    s: Seq<bool>,
    br: int,
    bc: int,
    d: int,
    lr: int,
    lc: int,
)
    requires
        solves(g, s),
        0 <= br < 3,
        0 <= bc < 3,
        below9(d),
        0 <= lr < 3,
        0 <= lc < 3,
        forall|i: int| 0 <= i < 3 && i != lr ==> #[trigger] row_marked(g, 3 * br + i, bc, d),
        forall|j: int| 0 <= j < 3 && j != lc ==> #[trigger] col_marked(g, 3 * bc + j, br, d),
    ensures
        sole(s, 3 * br + lr, 3 * bc + lc, d),
{
    let grp = 3 * br + bc;
    lemma_every_digit(s, 2, grp, d);
    let k = choose|k: int| below9(k) && #[trigger] sole(s, grow(2, grp, k), gcol(2, grp, k), d);
    let r0 = 3 * br + k / 3;
    let c0 = 3 * bc + k % 3;
    assert(grow(2, grp, k) == r0 && gcol(2, grp, k) == c0);
    if k / 3 != lr {
        assert(row_marked(g, 3 * br + k / 3, bc, d));
        let c = choose|c: int| below9(c) && c / 3 != bc && #[trigger] sole(g, r0, c, d);
        lemma_naked_single(g, s, r0, c, d);
        assert(peers(r0, c, r0, c0));
    }
    if k % 3 != lc {
        assert(col_marked(g, 3 * bc + k % 3, br, d));
        let r = choose|r: int| below9(r) && r / 3 != br && #[trigger] sole(g, r, c0, d);
        lemma_naked_single(g, s, r, c0, d);
        assert(peers(r, c0, r0, c0));
    }
}

/// A locked pattern found in `a` stays found, or its cell decided to its
/// digit, in a grid that keeps a solution of `a` and only lost candidates.
pub proof fn lemma_locked_persists(
    a: Seq<bool>,
    b: Seq<bool>,
    s: Seq<bool>,
    d: int,
    br: int,
    bc: int,
    lr: int,
    lc: int,
)
    requires
        solves(a, s),
        solves(b, s),
        shrinks(b, a),
        0 <= br < 3,
        0 <= bc < 3,
        below9(d),
        locked_cell(a, d, br, bc, lr, lc),
    ensures
        locked_cell(b, d, br, bc, lr, lc) || sole(b, 3 * br + lr, 3 * bc + lc, d),
{
    let (xr, xc) = (3 * br + lr, 3 * bc + lc);
    assert forall|i: int| 0 <= i < 3 && i != lr implies #[trigger] row_marked(b, 3 * br + i, bc, d) by {
        assert(row_marked(a, 3 * br + i, bc, d));
        let c = choose|c: int| below9(c) && c / 3 != bc && #[trigger] sole(a, 3 * br + i, c, d);
        lemma_naked_single(a, s, 3 * br + i, c, d);
        lemma_sole_persists(a, b, s, 3 * br + i, c, d);
        assert(sole(b, 3 * br + i, c, d));
    }
    assert forall|j: int| 0 <= j < 3 && j != lc implies #[trigger] col_marked(b, 3 * bc + j, br, d) by {
        assert(col_marked(a, 3 * bc + j, br, d));
        let r = choose|r: int| below9(r) && r / 3 != br && #[trigger] sole(a, r, 3 * bc + j, d);
        lemma_naked_single(a, s, r, 3 * bc + j, d);
        lemma_sole_persists(a, b, s, r, 3 * bc + j, d);
        assert(sole(b, r, 3 * bc + j, d));
    }
    lemma_locked(a, s, br, bc, d, lr, lc);
    if row_marked(b, xr, bc, d) {
        let c = choose|c: int| below9(c) && c / 3 != bc && #[trigger] sole(b, xr, c, d);
        lemma_naked_single(b, s, xr, c, d);
        assert(peers(xr, c, xr, xc));
    }
    if col_marked(b, xc, br, d) {
        let r = choose|r: int| below9(r) && r / 3 != br && #[trigger] sole(b, r, xc, d);
        lemma_naked_single(b, s, r, xc, d);
        assert(peers(r, xc, xr, xc));
    }
    if decided(b, xr, xc) {
        let w = choose|w: int| below9(w) && sole(b, xr, xc, w);
        assert(cand(b, xr, xc, d));
    }
}

} // verus!
