//! The completion checker: a grid is solved when every group holds every
//! symbol exactly once.

use vstd::prelude::*;

use crate::board::cell_index;
use crate::board::grid_wf;
use crate::board::SudokuBoard;
use crate::groups::group_col;
use crate::groups::group_row;
use crate::groups::group_val;
use crate::groups::lemma_group_pos_range;

verus! {

/// Group g of grid s holds symbol v in at least one of its 9 member cells.
pub open spec fn group_contains(s: Seq<u8>, g: int, v: u8) -> bool {
    exists|k: int| 0 <= k < 9 && #[trigger] group_val(s, g, k) == v
}

/// The grid is completely and legally filled: every cell holds one of the
/// symbols 1..=9 and every one of the 27 groups holds every symbol. For 9
/// cells and 9 symbols this forces each group to be a permutation of 1..=9.
pub open spec fn solved(s: Seq<u8>) -> bool {
    &&& s.len() == 81
    &&& forall|i: int| 0 <= i < 81 ==> 1 <= #[trigger] s[i] <= 9
    &&& forall|g: int, v: u8| 0 <= g < 27 && 1 <= v <= 9 ==> #[trigger] group_contains(s, g, v)
}

/// A sequence that contains each of the values 1..=m has at least m entries.
proof fn lemma_each_value_needs_a_slot(q: Seq<int>, m: int)
    requires
        0 <= m,
        forall|v: int| 1 <= v <= m ==> #[trigger] q.contains(v),
    ensures
        q.len() >= m,
    decreases m,
{
    if m > 0 {
        assert(q.contains(m));
        let i = choose|i: int| 0 <= i < q.len() && q[i] == m;
        let q2 = q.remove(i);
        assert forall|v: int| 1 <= v <= m - 1 implies #[trigger] q2.contains(v) by {
            assert(q.contains(v));
            let j = choose|j: int| 0 <= j < q.len() && q[j] == v;
            if j < i {
                assert(q2[j] == v);
            } else {
                assert(j > i);
                assert(q2[j - 1] == v);
            }
        }
        lemma_each_value_needs_a_slot(q2, m - 1);
    }
}

/// A sequence of pairwise distinct values drawn from 1..=m has at most m
/// entries.
proof fn lemma_distinct_values_fit(q: Seq<int>, m: int)
    requires
        0 <= m,
        forall|i: int| 0 <= i < q.len() ==> 1 <= #[trigger] q[i] <= m,
        forall|i: int, j: int| 0 <= i < j < q.len() ==> q[i] != q[j],
    ensures
        q.len() <= m,
    decreases m,
{
    if q.len() > 0 {
        assert(1 <= q[0] <= m);
        if q.contains(m) {
            let i = choose|i: int| 0 <= i < q.len() && q[i] == m;
            let q2 = q.remove(i);
            assert forall|j: int| 0 <= j < q2.len() implies 1 <= #[trigger] q2[j] <= m - 1 by {
                if j < i {
                    assert(q2[j] == q[j]);
                } else {
                    assert(q2[j] == q[j + 1]);
                }
            }
            assert forall|j1: int, j2: int| 0 <= j1 < j2 < q2.len() implies q2[j1] != q2[j2] by {
                let o1: int = if j1 < i {
                    j1
                } else {
                    j1 + 1
                };
                let o2: int = if j2 < i {
                    j2
                } else {
                    j2 + 1
                };
                assert(q2[j1] == q[o1]);
                assert(q2[j2] == q[o2]);
            }
            lemma_distinct_values_fit(q2, m - 1);
        } else {
            assert forall|j: int| 0 <= j < q.len() implies 1 <= #[trigger] q[j] <= m - 1 by {
                if q[j] == m {
                    assert(q.contains(m));
                }
            }
            lemma_distinct_values_fit(q, m - 1);
        }
    }
}

/// In a solved grid, distinct member cells of one group hold distinct
/// symbols: each group is a permutation of 1..=9, not merely a cover.
pub proof fn lemma_solved_group_distinct(s: Seq<u8>, g: int, k1: int, k2: int)
    requires
        solved(s),
        0 <= g < 27,
        0 <= k1 < 9,
        0 <= k2 < 9,
        k1 != k2,
    ensures
        group_val(s, g, k1) != group_val(s, g, k2),
{
    if group_val(s, g, k1) == group_val(s, g, k2) {
        let lo: int = if k1 < k2 {
            k1
        } else {
            k2
        };
        let hi: int = if k1 < k2 {
            k2
        } else {
            k1
        };
        let q = Seq::new(9, |k: int| group_val(s, g, k) as int);
        let q2 = q.remove(hi);
        assert forall|v: int| 1 <= v <= 9 implies #[trigger] q2.contains(v) by {
            assert(group_contains(s, g, v as u8));
            let k = choose|k: int| 0 <= k < 9 && #[trigger] group_val(s, g, k) == (v as u8);
            let kw: int = if k == hi {
                lo
            } else {
                k
            };
            assert(q[kw] == v);
            if kw < hi {
                assert(q2[kw] == v);
            } else {
                assert(q2[kw - 1] == v);
            }
        }
        lemma_each_value_needs_a_slot(q2, 9);
        assert(false);
    }
}

/// A fully filled well-formed grid whose groups never repeat a symbol is
/// solved: each group must then hold all nine symbols.
pub proof fn lemma_distinct_groups_solved(s: Seq<u8>)
    requires
        s.len() == 81,
        forall|i: int| 0 <= i < 81 ==> 1 <= #[trigger] s[i] <= 9,
        forall|g: int, k1: int, k2: int|
            0 <= g < 27 && 0 <= k1 < k2 < 9 ==> group_val(s, g, k1) != group_val(s, g, k2),
    ensures
        solved(s),
{
    assert forall|g: int, v: u8| 0 <= g < 27 && 1 <= v <= 9 implies #[trigger] group_contains(
        s,
        g,
        v,
    ) by {
        if !group_contains(s, g, v) {
            let q = Seq::new(9, |k: int| group_val(s, g, k) as int);
            assert forall|k: int| 0 <= k < 9 implies 1 <= #[trigger] q[k] <= 9 && q[k] != v by {
                lemma_group_pos_range(g, k);
                if group_val(s, g, k) == v {
                    assert(group_contains(s, g, v));
                }
            }
            let q2 = Seq::new(9, |k: int| if q[k] < v { q[k] } else { q[k] - 1 });
            assert forall|j1: int, j2: int| 0 <= j1 < j2 < 9 implies q2[j1] != q2[j2] by {
                assert(q[j1] != q[j2]);
                assert(q[j1] != v && q[j2] != v);
            }
            assert forall|k: int| 0 <= k < 9 implies 1 <= #[trigger] q2[k] <= 8 by {
                assert(1 <= q[k] <= 9 && q[k] != v);
            }
            lemma_distinct_values_fit(q2, 8);
            assert(false);
        }
    }
}

/// A well-formed grid is solved exactly when no cell is empty and no group
/// repeats a symbol — that is, each group's 9 values permute 1..=9.
pub proof fn lemma_solved_iff_groups_permute(s: Seq<u8>)
    requires
        grid_wf(s),
    ensures
        solved(s) <==> ((forall|i: int| 0 <= i < 81 ==> #[trigger] s[i] != 0) && (forall|
            g: int,
            k1: int,
            k2: int,
        |
            0 <= g < 27 && 0 <= k1 < k2 < 9 ==> group_val(s, g, k1) != group_val(s, g, k2))),
{
    if solved(s) {
        assert forall|g: int, k1: int, k2: int|
            0 <= g < 27 && 0 <= k1 < k2 < 9 implies group_val(s, g, k1) != group_val(
            s,
            g,
            k2,
        ) by {
            lemma_solved_group_distinct(s, g, k1, k2);
        }
    }
    if (forall|i: int| 0 <= i < 81 ==> #[trigger] s[i] != 0) && (forall|g: int, k1: int, k2: int|
        0 <= g < 27 && 0 <= k1 < k2 < 9 ==> group_val(s, g, k1) != group_val(s, g, k2)) {
        assert forall|i: int| 0 <= i < 81 implies 1 <= #[trigger] s[i] <= 9 by {
            assert(s[i] != 0);
        }
        lemma_distinct_groups_solved(s);
    }
}

/// Decides whether the grid is solved: every cell filled and every group a
/// permutation of 1..=9.
pub fn is_solved(board: &SudokuBoard) -> (r: bool)
    requires
        board.wf(),
    ensures
        r == solved(board@),
{
    let ghost s = board@;
    let solvables = SudokuBoard::get_solvables();
    let mut gi: usize = 0;
    while gi < 27
        invariant
            gi <= 27,
            board.wf(),
            s == board@,
            solvables@.len() == 27,
            forall|g: int| 0 <= g < 27 ==> (#[trigger] solvables@[g])@.len() == 9,
            forall|g: int, k: int|
                0 <= g < 27 && 0 <= k < 9 ==> (#[trigger] solvables@[g]@[k]).row as int
                    == group_row(g, k) && solvables@[g]@[k].col as int == group_col(g, k),
            forall|g: int, v: u8| 0 <= g < gi && 1 <= v <= 9 ==> #[trigger] group_contains(s, g, v),
            forall|g: int, k: int| 0 <= g < gi && 0 <= k < 9 ==> #[trigger] group_val(s, g, k) != 0,
        decreases 27 - gi,
    {
        let mut checklist: Vec<bool> = Vec::new();
        let mut z: usize = 0;
        while z < 9
            invariant
                z <= 9,
                checklist@.len() == z,
                forall|j: int| 0 <= j < z ==> checklist@[j] == false,
            decreases 9 - z,
        {
            checklist.push(false);
            z += 1;
        }
        let mut k: usize = 0;
        while k < 9
            invariant
                gi < 27,
                k <= 9,
                board.wf(),
                s == board@,
                checklist@.len() == 9,
                solvables@.len() == 27,
                forall|g: int| 0 <= g < 27 ==> (#[trigger] solvables@[g])@.len() == 9,
                forall|g: int, kx: int|
                    0 <= g < 27 && 0 <= kx < 9 ==> (#[trigger] solvables@[g]@[kx]).row as int
                        == group_row(g, kx) && solvables@[g]@[kx].col as int == group_col(g, kx),
                forall|j: int|
                    0 <= j < 9 ==> ((#[trigger] checklist@[j]) == true <==> exists|kk: int|
                        0 <= kk < k && #[trigger] group_val(s, gi as int, kk) == (j + 1) as u8),
                forall|kk: int| 0 <= kk < k ==> #[trigger] group_val(s, gi as int, kk) != 0,
            decreases 9 - k,
        {
            let pos = solvables[gi][k];
            proof {
                lemma_group_pos_range(gi as int, k as int);
            }
            let cur_val = board.get_tile_value(pos.row, pos.col);
            if cur_val == 0 {
                proof {
                    assert(s[cell_index(pos.row as int, pos.col as int)] == 0);
                    assert(!solved(s));
                }
                return false;
            }
            let ghost old_checklist = checklist@;
            checklist[(cur_val - 1) as usize] = true;
            proof {
                assert(group_val(s, gi as int, k as int) == cur_val);
                assert forall|j: int| 0 <= j < 9 implies ((#[trigger] checklist@[j]) == true
                    <==> exists|kk: int|
                    0 <= kk < k + 1 && #[trigger] group_val(s, gi as int, kk) == (j + 1) as u8) by {
                    let v = (j + 1) as u8;
                    if v == cur_val {
                        assert(group_val(s, gi as int, k as int) == v);
                        assert(checklist@[j] == true);
                    } else {
                        assert(checklist@[j] == old_checklist[j]);
                        if exists|kk: int|
                            0 <= kk < k + 1 && #[trigger] group_val(s, gi as int, kk) == v {
                            let kk = choose|kk: int|
                                0 <= kk < k + 1 && #[trigger] group_val(s, gi as int, kk) == v;
                            assert(kk < k);
                        }
                    }
                }
            }
            k += 1;
        }
        let mut v: usize = 0;
        while v < 9
            invariant
                gi < 27,
                v <= 9,
                s == board@,
                checklist@.len() == 9,
                forall|j: int|
                    0 <= j < 9 ==> ((#[trigger] checklist@[j]) == true <==> exists|kk: int|
                        0 <= kk < 9 && #[trigger] group_val(s, gi as int, kk) == (j + 1) as u8),
                forall|w: u8| 1 <= w <= v ==> #[trigger] group_contains(s, gi as int, w),
            decreases 9 - v,
        {
            if !checklist[v] {
                proof {
                    let w = (v + 1) as u8;
                    assert(checklist@[v as int] == false);
                    assert(!group_contains(s, gi as int, w));
                    assert(!solved(s));
                }
                return false;
            }
            v += 1;
        }
        gi += 1;
    }
    proof {
        assert forall|i: int| 0 <= i < 81 implies 1 <= #[trigger] s[i] <= 9 by {
            let r0 = i / 9;
            let c0 = i % 9;
            assert(0 <= r0 < 9 && 0 <= c0 < 9);
            assert(group_row(r0, c0) == r0 && group_col(r0, c0) == c0);
            assert(cell_index(r0, c0) == i);
            assert(group_val(s, r0, c0) != 0);
        }
        assert(solved(s));
    }
    true
}

} // verus!
