//! The search engine: forced moves, guess branches with whole-grid
//! snapshots, and backtracking, until the grid is solved or the search
//! space is exhausted.

use vstd::prelude::*;

use crate::board::cell_index;
use crate::board::grid_wf;
use crate::board::SudokuBoard;
use crate::candidates::get_valid_states;
use crate::candidates::is_candidate;
use crate::candidates::lists_candidates;
use crate::candidates::TileSuperpos;
use crate::checker::is_solved;
use crate::checker::lemma_solved_group_distinct;
use crate::checker::solved;
use crate::groups::box_group;
use crate::groups::cell_sees;
use crate::groups::group_val;

verus! {

/// Grid t agrees with grid s on every cell that s has already filled; the
/// empty cells of s are unconstrained.
pub open spec fn extends(s: Seq<u8>, t: Seq<u8>) -> bool {
    t.len() == s.len() && forall|i: int| 0 <= i < s.len() && s[i] != 0 ==> t[i] == s[i]
}

/// Some legal completion of grid s exists.
pub open spec fn solvable(s: Seq<u8>) -> bool {
    exists|t: Seq<u8>| solved(t) && #[trigger] extends(s, t)
}

/// One choice point: the guessed cell with its ordered candidate list, a
/// cursor over the values not yet tried, and a full snapshot of the grid as
/// it was immediately before the guess.
pub struct Branch {
    pub tile: TileSuperpos,
    pub cur_option: usize,
    pub board_state: SudokuBoard,
}

impl Branch {
    /// How many of the recorded candidates have been handed out so far.
    pub open spec fn cur(&self) -> int {
        self.cur_option as int
    }

    pub fn new(tile: &TileSuperpos, board_state: &SudokuBoard) -> (b: Self)
        ensures
            b.tile.row == tile.row,
            b.tile.col == tile.col,
            b.tile.options@ == tile.options@,
            b.board_state@ == board_state@,
            b.cur() == 0,
    {
        Branch { tile: tile.clone(), cur_option: 0, board_state: board_state.clone() }
    }

    /// Whether an untried candidate remains.
    pub fn has_next(&self) -> (r: bool)
        ensures
            r == (self.cur() < self.tile.options@.len()),
    {
        !(self.cur_option >= self.tile.options.len())
    }

    /// Hands out the next untried candidate and advances the cursor.
    pub fn next(&mut self) -> (v: u8)
        requires
            old(self).cur() < old(self).tile.options@.len(),
        ensures
            v == old(self).tile.options@[old(self).cur()],
            final(self).cur() == old(self).cur() + 1,
            final(self).tile.row == old(self).tile.row,
            final(self).tile.col == old(self).tile.col,
            final(self).tile.options@ == old(self).tile.options@,
            final(self).board_state@ == old(self).board_state@,
    {
        let next_val = self.tile.options[self.cur_option];
        assert(self.cur_option < self.tile.options.len());
        self.cur_option += 1;
        next_val
    }
}

/// Number of empty cells in the grid.
pub open spec fn count_empty(s: Seq<u8>) -> nat
    decreases s.len(),
{
    if s.len() == 0 {
        0
    } else {
        count_empty(s.drop_last()) + (if s.last() == 0 {
            1nat
        } else {
            0nat
        })
    }
}

/// Powers of ten, used to weigh the unexplored search space: a grid with e
/// empty cells can require at most 10^e further assignments to settle.
spec fn pow10(e: nat) -> nat
    decreases e,
{
    if e == 0 {
        1
    } else {
        10 * pow10((e - 1) as nat)
    }
}

proof fn lemma_pow10_pos(e: nat)
    ensures
        pow10(e) >= 1,
    decreases e,
{
    if e > 0 {
        lemma_pow10_pos((e - 1) as nat);
    }
}

proof fn lemma_count_empty_update(s: Seq<u8>, i: int, v: u8)
    requires
        0 <= i < s.len(),
        s[i] == 0,
        v != 0,
    ensures
        count_empty(s.update(i, v)) + 1 == count_empty(s),
    decreases s.len(),
{
    if i == s.len() - 1 {
        assert(s.update(i, v).drop_last() =~= s.drop_last());
        assert(s.update(i, v).last() == v);
    } else {
        assert(s.update(i, v).drop_last() =~= s.drop_last().update(i, v));
        assert(s.update(i, v).last() == s.last());
        lemma_count_empty_update(s.drop_last(), i, v);
    }
}

proof fn lemma_count_empty_pos(s: Seq<u8>, i: int)
    requires
        0 <= i < s.len(),
        s[i] == 0,
    ensures
        count_empty(s) >= 1,
    decreases s.len(),
{
    if i < s.len() - 1 {
        lemma_count_empty_pos(s.drop_last(), i);
    }
}

/// Candidates of this branch not yet tried.
spec fn branch_rem(b: Branch) -> nat {
    if b.cur() <= b.tile.options@.len() {
        (b.tile.options@.len() - b.cur()) as nat
    } else {
        0
    }
}

spec fn snap_exp(b: Branch) -> nat {
    if count_empty(b.board_state@) >= 1 {
        (count_empty(b.board_state@) - 1) as nat
    } else {
        0
    }
}

/// Upper bound on the work left under this branch's untried candidates.
spec fn branch_weight(b: Branch) -> nat {
    branch_rem(b) * pow10(snap_exp(b))
}

spec fn stack_sum(bs: Seq<Branch>) -> nat
    decreases bs.len(),
{
    if bs.len() == 0 {
        0
    } else {
        stack_sum(bs.drop_last()) + branch_weight(bs.last())
    }
}

/// The termination measure: work left under the open branches plus work
/// left under the live grid.
spec fn search_measure(bs: Seq<Branch>, s: Seq<u8>) -> nat {
    stack_sum(bs) + pow10(count_empty(s))
}

proof fn lemma_stack_sum_push(bs: Seq<Branch>, b: Branch)
    ensures
        stack_sum(bs.push(b)) == stack_sum(bs) + branch_weight(b),
{
    assert(bs.push(b).drop_last() =~= bs);
    assert(bs.push(b).last() == b);
}

/// A branch is a meaningful choice point over the starting grid s0.
spec fn branch_inv(s0: Seq<u8>, b: Branch) -> bool {
    &&& grid_wf(b.board_state@)
    &&& extends(s0, b.board_state@)
    &&& b.tile.row < 9
    &&& b.tile.col < 9
    &&& b.board_state@[cell_index(b.tile.row as int, b.tile.col as int)] == 0
    &&& b.cur() <= b.tile.options@.len()
    &&& b.tile.options@.len() <= 9
    &&& forall|j: int| 0 <= j < b.tile.options@.len() ==> 1 <= #[trigger] b.tile.options@[j] <= 9
}

spec fn stack_inv(s0: Seq<u8>, bs: Seq<Branch>) -> bool {
    forall|i: int| 0 <= i < bs.len() ==> branch_inv(s0, #[trigger] bs[i])
}

/// Completion t is still reachable through branch b: applying one of its
/// untried candidates to its snapshot stays on the way to t.
spec fn branch_covers(b: Branch, t: Seq<u8>) -> bool {
    exists|j: int|
        b.cur() <= j < b.tile.options@.len() && extends(
            b.board_state@.update(
                cell_index(b.tile.row as int, b.tile.col as int),
                #[trigger] b.tile.options@[j],
            ),
            t,
        )
}

/// Every completion of s0 is reachable: either through the live grid or
/// through an untried candidate of some open branch.
spec fn covers_all(s0: Seq<u8>, bs: Seq<Branch>, cur: Seq<u8>) -> bool {
    forall|t: Seq<u8>|
        solved(t) && #[trigger] extends(s0, t) ==> (extends(cur, t) || exists|i: int|
            0 <= i < bs.len() && branch_covers(#[trigger] bs[i], t))
}

/// As above, but the live grid is a known dead end, so only the open
/// branches can still reach a completion.
spec fn stack_covers(s0: Seq<u8>, bs: Seq<Branch>) -> bool {
    forall|t: Seq<u8>|
        solved(t) && #[trigger] extends(s0, t) ==> exists|i: int|
            0 <= i < bs.len() && branch_covers(#[trigger] bs[i], t)
}

proof fn lemma_extends_fill(s0: Seq<u8>, cur: Seq<u8>, i: int, v: u8)
    requires
        extends(s0, cur),
        0 <= i < cur.len(),
        cur[i] == 0,
    ensures
        extends(s0, cur.update(i, v)),
{
    assert(s0[i] == 0);
}

proof fn lemma_extends_target(cur: Seq<u8>, t: Seq<u8>, i: int, v: u8)
    requires
        extends(cur, t),
        0 <= i < cur.len(),
        t[i] == v,
    ensures
        extends(cur.update(i, v), t),
{
}

/// A grid with no empty cell admits no completion other than itself.
proof fn lemma_full_extends_self(s: Seq<u8>, t: Seq<u8>)
    requires
        forall|i: int| 0 <= i < s.len() ==> s[i] != 0,
        extends(s, t),
    ensures
        t == s,
{
    assert(t =~= s);
}

/// In any legal completion of s, the value that completes an empty cell of s
/// is one of that cell's current candidates: every peer value is kept out of
/// the cell by the distinctness of the completion's groups.
#[verifier::rlimit(60)]
proof fn lemma_completion_candidate(s: Seq<u8>, t: Seq<u8>, r: int, c: int)
    requires
        s.len() == 81,
        solved(t),
        extends(s, t),
        0 <= r < 9,
        0 <= c < 9,
        s[cell_index(r, c)] == 0,
    ensures
        is_candidate(s, r, c, t[cell_index(r, c)]),
{
    let idx = cell_index(r, c);
    assert(0 <= idx < 81);
    let v = t[idx];
    assert(1 <= v <= 9);
    assert forall|r2: int, c2: int|
        0 <= r2 < 9 && 0 <= c2 < 9 && cell_sees(r, c, r2, c2) implies s[cell_index(r2, c2)]
        != v by {
        let idx2 = cell_index(r2, c2);
        assert(0 <= idx2 < 81);
        if s[idx2] == v {
            assert(t[idx2] == v);
            if r2 == r && c2 == c {
                assert(idx2 == idx);
                assert(false);
            } else if r2 == r {
                assert(group_val(t, r, c) == t[idx]);
                assert(group_val(t, r, c2) == t[idx2]);
                lemma_solved_group_distinct(t, r, c, c2);
                assert(false);
            } else if c2 == c {
                assert(group_val(t, 9 + c, r) == t[idx]);
                assert(group_val(t, 9 + c, r2) == t[idx2]);
                lemma_solved_group_distinct(t, 9 + c, r, r2);
                assert(false);
            } else {
                let g = box_group(r, c);
                let k1 = (r % 3) * 3 + c % 3;
                let k2 = (r2 % 3) * 3 + c2 % 3;
                assert(r / 3 == r2 / 3 && c / 3 == c2 / 3);
                assert(18 <= g < 27);
                assert(group_val(t, g, k1) == t[idx]);
                assert(group_val(t, g, k2) == t[idx2]);
                assert(k1 != k2);
                lemma_solved_group_distinct(t, g, k1, k2);
                assert(false);
            }
        }
    }
}

/// What the row-major scan guarantees about the cell it selected: the cell
/// is empty and its recorded options are exactly its candidates.
spec fn low_ok(s: Seq<u8>, lowest: Option<TileSuperpos>) -> bool {
    match lowest {
        Option::Some(ts) => ts.row < 9 && ts.col < 9 && s[cell_index(
            ts.row as int,
            ts.col as int,
        )] == 0 && lists_candidates(s, ts.row as int, ts.col as int, ts.options@)
            && ts.options@.len() <= 9,
        Option::None => true,
    }
}

/// Pops branches until one with an untried candidate is found; restores that
/// branch's snapshot, applies its next candidate, and pushes it back.
/// Returns false when no branch remains: the whole search space is exhausted
/// and s0 has no completion.
fn backtrack(branches: &mut Vec<Branch>, board: &mut SudokuBoard, Ghost(s0): Ghost<Seq<u8>>) -> (found:
    bool)
    requires
        s0.len() == 81,
        old(board).wf(),
        extends(s0, old(board)@),
        stack_inv(s0, old(branches)@),
        stack_covers(s0, old(branches)@),
    ensures
        final(board).wf(),
        extends(s0, final(board)@),
        stack_inv(s0, final(branches)@),
        found ==> covers_all(s0, final(branches)@, final(board)@),
        found ==> search_measure(final(branches)@, final(board)@) <= stack_sum(old(branches)@),
        !found ==> !solvable(s0),
{
    loop
        invariant
            s0.len() == 81,
            board.wf(),
            extends(s0, board@),
            stack_inv(s0, branches@),
            stack_covers(s0, branches@),
            stack_sum(branches@) <= stack_sum(old(branches)@),
        decreases branches@.len(),
    {
        let ghost bs_full = branches@;
        let mut last_branch = match branches.pop() {
            Some(val) => val,
            None => {
                proof {
                    if solvable(s0) {
                        let t = choose|t: Seq<u8>| solved(t) && #[trigger] extends(s0, t);
                        assert(false);
                    }
                }
                return false;
            },
        };
        proof {
            assert(branches@ =~= bs_full.drop_last());
            assert(last_branch == bs_full.last());
            assert(branch_inv(s0, bs_full[bs_full.len() - 1]));
            assert(stack_sum(bs_full) == stack_sum(branches@) + branch_weight(last_branch));
        }

        // Restore the live grid to the state recorded before this guess.
        *board = last_branch.board_state.clone();

        if !last_branch.has_next() {
            // This branch is exhausted: discard it and keep unwinding.
            proof {
                assert forall|t: Seq<u8>| solved(t) && #[trigger] extends(s0, t) implies exists|
                    i: int,
                |
                    0 <= i < branches@.len() && branch_covers(#[trigger] branches@[i], t) by {
                    let i = choose|i: int|
                        0 <= i < bs_full.len() && branch_covers(#[trigger] bs_full[i], t);
                    if i == bs_full.len() - 1 {
                        assert(branch_covers(last_branch, t));
                        let j = choose|j: int|
                            last_branch.cur() <= j < last_branch.tile.options@.len() && extends(
                                last_branch.board_state@.update(
                                    cell_index(
                                        last_branch.tile.row as int,
                                        last_branch.tile.col as int,
                                    ),
                                    #[trigger] last_branch.tile.options@[j],
                                ),
                                t,
                            );
                        assert(false);
                    } else {
                        assert(branches@[i] == bs_full[i]);
                        assert(branch_covers(branches@[i], t));
                    }
                }
            }
            continue;
        }

        // Try this branch's next untried candidate.
        let ghost snap = board@;
        let ghost cur0 = last_branch.cur();
        let ghost opts = last_branch.tile.options@;
        let v = last_branch.next();
        let ghost r = last_branch.tile.row as int;
        let ghost c = last_branch.tile.col as int;
        let ghost idx = cell_index(r, c);
        proof {
            assert(1 <= opts[cur0] <= 9);
        }
        board.set_tile_value(last_branch.tile.row, last_branch.tile.col, v);
        let ghost bs_kept = branches@;
        branches.push(last_branch);
        proof {
            let bnew = branches@[branches@.len() - 1];
            assert(branches@ =~= bs_kept.push(bnew));
            // The reopened branch is still a sound choice point.
            assert(branch_inv(s0, bnew));
            assert forall|i: int| 0 <= i < branches@.len() implies branch_inv(
                s0,
                #[trigger] branches@[i],
            ) by {
                if i < branches@.len() - 1 {
                    assert(branches@[i] == bs_kept[i]);
                }
            }
            // The restored-and-advanced grid keeps every cell of s0.
            lemma_extends_fill(s0, snap, idx, v);
            assert(extends(s0, board@));
            // Every completion remains covered: by the new grid if it takes
            // this candidate, by the reopened branch if it takes a later one,
            // or by a branch further down the stack.
            assert forall|t: Seq<u8>| solved(t) && #[trigger] extends(s0, t) implies (extends(
                board@,
                t,
            ) || exists|i: int|
                0 <= i < branches@.len() && branch_covers(#[trigger] branches@[i], t)) by {
                let i = choose|i: int|
                    0 <= i < bs_full.len() && branch_covers(#[trigger] bs_full[i], t);
                if i == bs_full.len() - 1 {
                    let j = choose|j: int|
                        cur0 <= j < opts.len() && extends(
                            snap.update(idx, #[trigger] opts[j]),
                            t,
                        );
                    if j == cur0 {
                        assert(extends(board@, t));
                    } else {
                        assert(branch_covers(bnew, t)) by {
                            assert(bnew.cur() <= j < bnew.tile.options@.len() && extends(
                                bnew.board_state@.update(
                                    cell_index(bnew.tile.row as int, bnew.tile.col as int),
                                    bnew.tile.options@[j],
                                ),
                                t,
                            ));
                        }
                        assert(branch_covers(branches@[branches@.len() - 1], t));
                    }
                } else {
                    assert(branches@[i] == bs_full[i]);
                    assert(branch_covers(branches@[i], t));
                }
            }
            // The measure has not grown past what the stack accounted for:
            // the candidate moved from the branch's balance into the grid.
            lemma_count_empty_pos(snap, idx);
            lemma_count_empty_update(snap, idx, v);
            let e = count_empty(snap);
            let p = pow10((e - 1) as nat);
            assert(snap_exp(bnew) == (e - 1) as nat);
            assert(branch_rem(last_branch) + 1 == branch_rem(bs_full.last()));
            lemma_stack_sum_push(bs_kept, bnew);
            assert(branch_weight(bnew) + p == branch_weight(bs_full.last())) by (nonlinear_arith)
                requires
                    branch_weight(bnew) == branch_rem(bnew) * p,
                    branch_weight(bs_full.last()) == branch_rem(bs_full.last()) * p,
                    branch_rem(bnew) + 1 == branch_rem(bs_full.last()),
            ;
            assert(count_empty(board@) == (e - 1) as nat);
            assert(search_measure(branches@, board@) == stack_sum(bs_full));
            assert(search_measure(branches@, board@) <= stack_sum(old(branches)@));
        }
        return true;
    }
}

/// Runs the search to completion on the given grid. Returns Ok exactly when
/// the starting grid has a legal completion; the grid then holds one, with
/// every originally filled cell unchanged. A grid that is already solved is
/// returned untouched. Returns Err when no completion exists.
pub fn solve(board: &mut SudokuBoard) -> (res: Result<&'static str, &'static str>)
    requires
        old(board).wf(),
    ensures
        final(board).wf(),
        extends(old(board)@, final(board)@),
        res is Ok <==> solvable(old(board)@),
        res is Ok ==> solved(final(board)@),
        solved(old(board)@) ==> res is Ok && final(board)@ == old(board)@,
{
    let ghost s0 = board@;
    let mut branches: Vec<Branch> = Vec::new();

    loop
        invariant
            s0 == old(board)@,
            s0.len() == 81,
            board.wf(),
            extends(s0, board@),
            stack_inv(s0, branches@),
            covers_all(s0, branches@, board@),
            solved(s0) ==> board@ == s0,
        ensures
            board.wf(),
            extends(s0, board@),
            solved(board@),
            solved(s0) ==> board@ == s0,
        decreases search_measure(branches@, board@),
    {
        let ghost bs0 = branches@;
        let ghost cur0 = board@;

        if is_solved(board) {
            break;
        }

        // Scan the grid in row-major order for the empty cell with the
        // fewest candidates; on ties the first cell found is kept, which is
        // what makes the search order reproducible.
        let mut lowest: Option<TileSuperpos> = None;
        let mut row: usize = 0;
        while row < 9
            invariant
                row <= 9,
                board.wf(),
                cur0 == board@,
                low_ok(board@, lowest),
                lowest is None ==> forall|r2: int, c2: int|
                    0 <= r2 < row as int && 0 <= c2 < 9 ==> board@[#[trigger] cell_index(r2, c2)]
                        != 0,
            decreases 9 - row,
        {
            let mut col: usize = 0;
            while col < 9
                invariant
                    row < 9,
                    col <= 9,
                    board.wf(),
                    cur0 == board@,
                    low_ok(board@, lowest),
                    lowest is None ==> forall|r2: int, c2: int|
                        0 <= r2 < 9 && 0 <= c2 < 9 && (r2 < row as int || (r2 == row as int && c2
                            < col as int)) ==> board@[#[trigger] cell_index(r2, c2)] != 0,
                decreases 9 - col,
            {
                if board.get_tile_value(row, col) == 0 {
                    let ts = get_valid_states(board, row, col);
                    let replace = match &lowest {
                        None => true,
                        Some(cur_low) => ts.options.len() < cur_low.options.len(),
                    };
                    if replace {
                        lowest = Some(ts);
                    }
                }
                col += 1;
            }
            row += 1;
        }

        match lowest {
            Some(low) => {
                let ghost r = low.row as int;
                let ghost c = low.col as int;
                let ghost idx = cell_index(r, c);
                if low.options.len() == 1 {
                    // A forced move: only one symbol fits this cell.
                    let v = low.options[0];
                    proof {
                        assert(low.options@.contains(low.options@[0]));
                    }
                    board.set_tile_value(low.row, low.col, v);
                    proof {
                        lemma_extends_fill(s0, cur0, idx, v);
                        assert forall|t: Seq<u8>| solved(t) && #[trigger] extends(s0, t) implies (
                        extends(board@, t) || exists|i: int|
                            0 <= i < branches@.len() && branch_covers(
                                #[trigger] branches@[i],
                                t,
                            )) by {
                            if extends(cur0, t) {
                                lemma_completion_candidate(cur0, t, r, c);
                                assert(low.options@.contains(t[idx]));
                                let j = choose|j: int|
                                    0 <= j < low.options@.len() && low.options@[j] == t[idx];
                                assert(j == 0);
                                lemma_extends_target(cur0, t, idx, v);
                            }
                        }
                        if solved(s0) {
                            assert(solved(cur0));
                            assert(false);
                        }
                        lemma_count_empty_pos(cur0, idx);
                        lemma_count_empty_update(cur0, idx, v);
                        lemma_pow10_pos((count_empty(cur0) - 1) as nat);
                        assert(search_measure(branches@, board@) < search_measure(bs0, cur0));
                    }
                    continue;
                }
                if low.options.len() > 1 {
                    // A genuine choice: snapshot the grid, record the cell
                    // and its candidates, and try the first one.
                    let mut new_branch = Branch::new(&low, board);
                    let v = new_branch.next();
                    proof {
                        assert(low.options@.contains(low.options@[0]));
                    }
                    board.set_tile_value(low.row, low.col, v);
                    let ghost bs_kept = branches@;
                    branches.push(new_branch);
                    proof {
                        let bnew = branches@[branches@.len() - 1];
                        assert(branches@ =~= bs_kept.push(bnew));
                        assert forall|j: int|
                            0 <= j < bnew.tile.options@.len() implies 1
                            <= #[trigger] bnew.tile.options@[j] <= 9 by {
                            assert(low.options@.contains(low.options@[j]));
                        }
                        assert(branch_inv(s0, bnew));
                        assert forall|i: int| 0 <= i < branches@.len() implies branch_inv(
                            s0,
                            #[trigger] branches@[i],
                        ) by {
                            if i < branches@.len() - 1 {
                                assert(branches@[i] == bs_kept[i]);
                            }
                        }
                        lemma_extends_fill(s0, cur0, idx, v);
                        assert forall|t: Seq<u8>| solved(t) && #[trigger] extends(s0, t) implies (
                        extends(board@, t) || exists|i: int|
                            0 <= i < branches@.len() && branch_covers(
                                #[trigger] branches@[i],
                                t,
                            )) by {
                            if extends(cur0, t) {
                                lemma_completion_candidate(cur0, t, r, c);
                                assert(low.options@.contains(t[idx]));
                                let j = choose|j: int|
                                    0 <= j < low.options@.len() && low.options@[j] == t[idx];
                                if j == 0 {
                                    lemma_extends_target(cur0, t, idx, v);
                                    assert(extends(board@, t));
                                } else {
                                    lemma_extends_target(cur0, t, idx, low.options@[j]);
                                    assert(branch_covers(bnew, t)) by {
                                        assert(bnew.cur() <= j < bnew.tile.options@.len()
                                            && extends(
                                            bnew.board_state@.update(
                                                cell_index(
                                                    bnew.tile.row as int,
                                                    bnew.tile.col as int,
                                                ),
                                                bnew.tile.options@[j],
                                            ),
                                            t,
                                        ));
                                    }
                                    assert(branch_covers(branches@[branches@.len() - 1], t));
                                }
                            } else {
                                let i = choose|i: int|
                                    0 <= i < bs0.len() && branch_covers(#[trigger] bs0[i], t);
                                assert(branches@[i] == bs0[i]);
                                assert(branch_covers(branches@[i], t));
                            }
                        }
                        if solved(s0) {
                            assert(solved(cur0));
                            assert(false);
                        }
                        // The measure shrinks: at most 9 candidates moved onto
                        // the stack, against a tenfold drop in grid weight.
                        lemma_count_empty_pos(cur0, idx);
                        lemma_count_empty_update(cur0, idx, v);
                        let e = count_empty(cur0);
                        let p = pow10((e - 1) as nat);
                        lemma_pow10_pos((e - 1) as nat);
                        lemma_stack_sum_push(bs_kept, bnew);
                        assert(snap_exp(bnew) == (e - 1) as nat);
                        assert(branch_rem(bnew) + 1 == bnew.tile.options@.len());
                        assert(branch_weight(bnew) + p <= 9 * p) by (nonlinear_arith)
                            requires
                                branch_weight(bnew) == branch_rem(bnew) * p,
                                branch_rem(bnew) + 1 <= 9,
                        ;
                        assert(pow10(e) == 10 * p);
                        assert(count_empty(board@) == (e - 1) as nat);
                        assert(search_measure(branches@, board@) < search_measure(bs0, cur0));
                    }
                    continue;
                }
                // No value fits this empty cell: the live grid is a dead
                // end, so unwind to the most recent open choice point.
                proof {
                    assert forall|t: Seq<u8>| solved(t) && #[trigger] extends(s0, t) implies exists|
                        i: int,
                    |
                        0 <= i < branches@.len() && branch_covers(#[trigger] branches@[i], t) by {
                        if extends(cur0, t) {
                            lemma_completion_candidate(cur0, t, r, c);
                            assert(low.options@.contains(t[idx]));
                            let j = choose|j: int|
                                0 <= j < low.options@.len() && low.options@[j] == t[idx];
                            assert(false);
                        }
                    }
                    if solved(s0) {
                        assert(solved(cur0));
                        assert(false);
                    }
                }
                if !backtrack(&mut branches, board, Ghost(s0)) {
                    proof {
                        if solved(s0) {
                            assert(extends(s0, s0));
                            assert(solvable(s0));
                            assert(false);
                        }
                    }
                    return Err("No solution found");
                }
                proof {
                    lemma_pow10_pos(count_empty(cur0));
                    assert(search_measure(branches@, board@) < search_measure(bs0, cur0));
                }
            },
            None => {
                // Every cell is filled yet the grid is not solved: the
                // starting grid itself was contradictory. Treat it as a
                // dead end like any other.
                proof {
                    assert forall|i: int| 0 <= i < 81 implies cur0[i] != 0 by {
                        let r0 = i / 9;
                        let c0 = i % 9;
                        assert(0 <= r0 < 9 && 0 <= c0 < 9);
                        assert(cell_index(r0, c0) == i);
                        assert(cur0[cell_index(r0, c0)] != 0);
                    }
                    assert forall|t: Seq<u8>| solved(t) && #[trigger] extends(s0, t) implies exists|
                        i: int,
                    |
                        0 <= i < branches@.len() && branch_covers(#[trigger] branches@[i], t) by {
                        if extends(cur0, t) {
                            lemma_full_extends_self(cur0, t);
                            assert(solved(cur0));
                            assert(false);
                        }
                    }
                    if solved(s0) {
                        assert(solved(cur0));
                        assert(false);
                    }
                }
                if !backtrack(&mut branches, board, Ghost(s0)) {
                    proof {
                        if solved(s0) {
                            assert(extends(s0, s0));
                            assert(solvable(s0));
                            assert(false);
                        }
                    }
                    return Err("No solution found");
                }
                proof {
                    lemma_pow10_pos(count_empty(cur0));
                    assert(search_measure(branches@, board@) < search_measure(bs0, cur0));
                }
            },
        }
    }
    proof {
        assert(extends(s0, board@));
        assert(solvable(s0));
    }
    Ok("Solution found")
}

} // verus!
