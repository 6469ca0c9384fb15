//! The candidate evaluator: which symbols may still be placed in a cell.

use vstd::prelude::*;

use crate::board::cell_index;
use crate::board::grid_wf;
use crate::board::SudokuBoard;
use crate::groups::cell_sees;
use crate::groups::group_col;
use crate::groups::group_member;
use crate::groups::group_row;
use crate::groups::group_val;
use crate::groups::lemma_group_pos_range;
use crate::groups::lemma_sees_owning_group;
use crate::groups::owning_group;

verus! {

/// No cell that sees (r, c) — shares a row, column or box with it — holds v.
pub open spec fn value_unseen(s: Seq<u8>, r: int, c: int, v: u8) -> bool {
    forall|r2: int, c2: int|
        0 <= r2 < 9 && 0 <= c2 < 9 && cell_sees(r, c, r2, c2) ==> s[cell_index(r2, c2)] != v
}

/// Symbol v is a legal candidate for cell (r, c): one of 1..=9, and not yet
/// placed anywhere in the cell's 3 owning groups.
pub open spec fn is_candidate(s: Seq<u8>, r: int, c: int, v: u8) -> bool {
    1 <= v <= 9 && value_unseen(s, r, c, v)
}

/// `opts` lists, in strictly ascending order, exactly the candidates of
/// cell (r, c) in grid s.
pub open spec fn lists_candidates(s: Seq<u8>, r: int, c: int, opts: Seq<u8>) -> bool {
    &&& forall|v: u8|
        #![trigger opts.contains(v)]
        #![trigger is_candidate(s, r, c, v)]
        opts.contains(v) <==> is_candidate(s, r, c, v)
    &&& forall|j1: int, j2: int| 0 <= j1 < j2 < opts.len() ==> opts[j1] < opts[j2]
}

/// One empty cell together with the symbols it could still take.
pub struct TileSuperpos {
    pub row: usize,
    pub col: usize,
    pub options: Vec<u8>,
}

impl TileSuperpos {
    pub fn clone(&self) -> (r: Self)
        ensures
            r.row == self.row,
            r.col == self.col,
            r.options@ == self.options@,
    {
        let mut options: Vec<u8> = Vec::new();
        let mut j: usize = 0;
        while j < self.options.len()
            invariant
                j <= self.options@.len(),
                options@ == self.options@.subrange(0, j as int),
            decreases self.options@.len() - j,
        {
            options.push(self.options[j]);
            j += 1;
        }
        proof {
            assert(options@ =~= self.options@);
        }
        TileSuperpos { row: self.row, col: self.col, options }
    }
}

/// A value already placed somewhere in the first member slots of the owning
/// groups of (r, c): all 9 slots of owning groups before `a_done`, and the
/// first `k_done` slots of owning group `a_done`.
spec fn prefix_blocked(s: Seq<u8>, r: int, c: int, a_done: int, k_done: int, v: u8) -> bool {
    exists|a: int, k: int|
        0 <= a < 3 && 0 <= k < 9 && (a < a_done || (a == a_done && k < k_done))
            && #[trigger] group_val(s, owning_group(r, c, a), k) == v
}

/// A candidate for a cell never duplicates a symbol already placed in any of
/// the cell's 3 owning groups.
pub proof fn lemma_candidate_not_in_owning_groups(
    s: Seq<u8>,
    r: int,
    c: int,
    v: u8,
    a: int,
    k: int,
)
    requires
        grid_wf(s),
        0 <= r < 9,
        0 <= c < 9,
        0 <= a < 3,
        0 <= k < 9,
        is_candidate(s, r, c, v),
    ensures
        group_val(s, owning_group(r, c, a), k) != v,
{
    let g = owning_group(r, c, a);
    let r2 = group_row(g, k);
    let c2 = group_col(g, k);
    lemma_group_pos_range(g, k);
    assert(group_member(g, r2, c2));
    lemma_sees_owning_group(r, c, r2, c2);
    assert(cell_sees(r, c, r2, c2));
    assert(s[cell_index(r2, c2)] != v);
}

/// The converse of blocking: a value placed in one of the owning groups is
/// placed at a cell that sees (r, c).
proof fn lemma_blocked_value_seen(s: Seq<u8>, r: int, c: int, v: u8)
    requires
        0 <= r < 9,
        0 <= c < 9,
        prefix_blocked(s, r, c, 3, 0, v),
    ensures
        !value_unseen(s, r, c, v),
{
    let (a, k): (int, int) = choose|a: int, k: int|
        0 <= a < 3 && 0 <= k < 9 && (a < 3 || (a == 3 && k < 0)) && #[trigger] group_val(
            s,
            owning_group(r, c, a),
            k,
        ) == v;
    let g = owning_group(r, c, a);
    let r2 = group_row(g, k);
    let c2 = group_col(g, k);
    lemma_group_pos_range(g, k);
    assert(group_member(g, r2, c2));
    lemma_sees_owning_group(r, c, r2, c2);
    assert(cell_sees(r, c, r2, c2));
    assert(s[cell_index(r2, c2)] == v);
}

/// And the other direction: a value seen from (r, c) is blocked by some
/// member slot of one of the 3 owning groups.
proof fn lemma_seen_value_blocked(s: Seq<u8>, r: int, c: int, v: u8)
    requires
        0 <= r < 9,
        0 <= c < 9,
        !value_unseen(s, r, c, v),
    ensures
        prefix_blocked(s, r, c, 3, 0, v),
{
    let (r2, c2): (int, int) = choose|r2: int, c2: int|
        0 <= r2 < 9 && 0 <= c2 < 9 && cell_sees(r, c, r2, c2) && s[cell_index(r2, c2)] == v;
    lemma_sees_owning_group(r, c, r2, c2);
    let a = choose|a: int| 0 <= a < 3 && #[trigger] group_member(owning_group(r, c, a), r2, c2);
    let g = owning_group(r, c, a);
    let k = choose|k: int| 0 <= k < 9 && group_row(g, k) == r2 && group_col(g, k) == c2;
    assert(group_val(s, owning_group(r, c, a), k) == v);
}

/// Computes the candidate set of cell (row, col): every symbol 1..=9 not yet
/// placed in the cell's row, column or box, in ascending order.
pub fn get_valid_states(board: &SudokuBoard, row: usize, col: usize) -> (t: TileSuperpos)
    requires
        board.wf(),
        row < 9,
        col < 9,
    ensures
        t.row == row,
        t.col == col,
        lists_candidates(board@, row as int, col as int, t.options@),
        t.options@.len() <= 9,
{
    let ghost s = board@;
    let ghost r = row as int;
    let ghost c = col as int;
    let solvables = SudokuBoard::get_solvables_for(row, col);
    let mut states: Vec<bool> = Vec::new();
    let mut v: usize = 0;
    while v < 9
        invariant
            v <= 9,
            states@.len() == v,
            forall|j: int| 0 <= j < v ==> states@[j] == true,
        decreases 9 - v,
    {
        states.push(true);
        v += 1;
    }

    let mut a: usize = 0;
    while a < 3
        invariant
            a <= 3,
            board.wf(),
            s == board@,
            r == row as int,
            c == col as int,
            row < 9,
            col < 9,
            states@.len() == 9,
            solvables@.len() == 3,
            forall|x: int| 0 <= x < 3 ==> (#[trigger] solvables@[x])@.len() == 9,
            forall|x: int, k: int|
                0 <= x < 3 && 0 <= k < 9 ==> (#[trigger] solvables@[x]@[k]).row as int == group_row(
                    owning_group(r, c, x),
                    k,
                ) && solvables@[x]@[k].col as int == group_col(owning_group(r, c, x), k),
            forall|w: u8|
                1 <= w <= 9 ==> (states@[w - 1] == false <==> #[trigger] prefix_blocked(
                    s,
                    r,
                    c,
                    a as int,
                    0,
                    w,
                )),
        decreases 3 - a,
    {
        let mut kk: usize = 0;
        while kk < 9
            invariant
                a < 3,
                kk <= 9,
                board.wf(),
                s == board@,
                r == row as int,
                c == col as int,
                row < 9,
                col < 9,
                states@.len() == 9,
                solvables@.len() == 3,
                forall|x: int| 0 <= x < 3 ==> (#[trigger] solvables@[x])@.len() == 9,
                forall|x: int, k: int|
                    0 <= x < 3 && 0 <= k < 9 ==> (#[trigger] solvables@[x]@[k]).row as int
                        == group_row(owning_group(r, c, x), k) && solvables@[x]@[k].col as int
                        == group_col(owning_group(r, c, x), k),
                forall|w: u8|
                    1 <= w <= 9 ==> (states@[w - 1] == false <==> #[trigger] prefix_blocked(
                        s,
                        r,
                        c,
                        a as int,
                        kk as int,
                        w,
                    )),
            decreases 9 - kk,
        {
            let pos = solvables[a][kk];
            proof {
                lemma_group_pos_range(owning_group(r, c, a as int), kk as int);
            }
            let cur_val = board.get_tile_value(pos.row, pos.col);
            let ghost old_states = states@;
            if cur_val != 0 {
                states[(cur_val - 1) as usize] = false;
            }
            proof {
                assert(group_val(s, owning_group(r, c, a as int), kk as int) == cur_val);
                assert forall|w: u8| 1 <= w <= 9 implies (states@[w - 1] == false
                    <==> #[trigger] prefix_blocked(s, r, c, a as int, kk as int + 1, w)) by {
                    if w == cur_val {
                        assert(group_val(s, owning_group(r, c, a as int), kk as int) == w);
                        assert(prefix_blocked(s, r, c, a as int, kk as int + 1, w));
                        assert(states@[w - 1] == false);
                    } else {
                        assert(states@[w - 1] == old_states[w - 1]);
                        if prefix_blocked(s, r, c, a as int, kk as int + 1, w) {
                            let (x, k): (int, int) = choose|x: int, k: int|
                                0 <= x < 3 && 0 <= k < 9 && (x < a as int || (x == a as int && k
                                    < kk as int + 1)) && #[trigger] group_val(
                                    s,
                                    owning_group(r, c, x),
                                    k,
                                ) == w;
                            if x == a as int && k == kk as int {
                                assert(w == cur_val);
                            } else {
                                assert(prefix_blocked(s, r, c, a as int, kk as int, w));
                            }
                        }
                        if prefix_blocked(s, r, c, a as int, kk as int, w) {
                            let (x, k): (int, int) = choose|x: int, k: int|
                                0 <= x < 3 && 0 <= k < 9 && (x < a as int || (x == a as int && k
                                    < kk as int)) && #[trigger] group_val(
                                    s,
                                    owning_group(r, c, x),
                                    k,
                                ) == w;
                            assert(prefix_blocked(s, r, c, a as int, kk as int + 1, w));
                        }
                    }
                }
            }
            kk += 1;
        }
        proof {
            assert forall|w: u8| 1 <= w <= 9 implies (states@[w - 1] == false
                <==> #[trigger] prefix_blocked(s, r, c, a as int + 1, 0, w)) by {
                if prefix_blocked(s, r, c, a as int, 9, w) {
                    let (x, k): (int, int) = choose|x: int, k: int|
                        0 <= x < 3 && 0 <= k < 9 && (x < a as int || (x == a as int && k < 9))
                            && #[trigger] group_val(s, owning_group(r, c, x), k) == w;
                    assert(x < a as int + 1);
                    assert(prefix_blocked(s, r, c, a as int + 1, 0, w));
                    assert(states@[w - 1] == false);
                } else {
                    if prefix_blocked(s, r, c, a as int + 1, 0, w) {
                        let (x, k): (int, int) = choose|x: int, k: int|
                            0 <= x < 3 && 0 <= k < 9 && (x < a as int + 1 || (x == a as int + 1
                                && k < 0)) && #[trigger] group_val(s, owning_group(r, c, x), k)
                                == w;
                        assert(x < a as int || (x == a as int && k < 9));
                        assert(prefix_blocked(s, r, c, a as int, 9, w));
                        assert(false);
                    }
                    assert(states@[w - 1] == true);
                }
            }
        }
        a += 1;
    }

    // Collect, in ascending order, the symbols still marked eligible.
    let mut valid_states: Vec<u8> = Vec::new();
    let mut index: u8 = 0;
    while index < 9
        invariant
            index <= 9,
            states@.len() == 9,
            valid_states@.len() <= index,
            forall|j: int| 0 <= j < valid_states@.len() ==> 1 <= #[trigger] valid_states@[j] <= index,
            forall|j1: int, j2: int|
                0 <= j1 < j2 < valid_states@.len() ==> valid_states@[j1] < valid_states@[j2],
            forall|w: u8|
                1 <= w <= 9 ==> (#[trigger] valid_states@.contains(w) <==> (w <= index && states@[w
                    - 1] == true)),
        decreases 9 - index,
    {
        let ghost old_valid = valid_states@;
        if states[index as usize] {
            valid_states.push(index + 1);
        }
        proof {
            assert forall|w: u8| 1 <= w <= 9 implies (#[trigger] valid_states@.contains(w) <==> (w
                <= index + 1 && states@[w - 1] == true)) by {
                if states@[index as int] == true {
                    assert(valid_states@ == old_valid.push((index + 1) as u8));
                    if w == index + 1 {
                        assert(valid_states@[old_valid.len() as int] == w);
                        assert(valid_states@.contains(w));
                    } else {
                        if valid_states@.contains(w) {
                            let j = choose|j: int|
                                0 <= j < valid_states@.len() && valid_states@[j] == w;
                            assert(j < old_valid.len());
                            assert(old_valid.contains(w));
                        }
                        if old_valid.contains(w) {
                            let j = choose|j: int| 0 <= j < old_valid.len() && old_valid[j] == w;
                            assert(valid_states@[j] == w);
                            assert(valid_states@.contains(w));
                        }
                    }
                } else {
                    if valid_states@.contains(w) {
                        let j = choose|j: int| 0 <= j < valid_states@.len() && valid_states@[j]
                            == w;
                        assert(w <= index);
                    }
                }
            }
        }
        index += 1;
    }

    proof {
        assert forall|w: u8|
            #![trigger valid_states@.contains(w)]
            #![trigger is_candidate(s, r, c, w)]
            valid_states@.contains(w) <==> is_candidate(s, r, c, w) by {
            if valid_states@.contains(w) {
                let j = choose|j: int| 0 <= j < valid_states@.len() && valid_states@[j] == w;
                assert(1 <= w <= 9);
            }
            if 1 <= w <= 9 {
                if states@[w - 1] == true {
                    if !value_unseen(s, r, c, w) {
                        lemma_seen_value_blocked(s, r, c, w);
                        assert(states@[w - 1] == false);
                    }
                } else {
                    lemma_blocked_value_seen(s, r, c, w);
                }
            }
        }
    }
    TileSuperpos { row, col, options: valid_states }
}

} // verus!
