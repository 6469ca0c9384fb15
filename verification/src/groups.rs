//! The fixed table of 27 constraint groups (9 rows, 9 columns, 9 boxes)
//! over the 9x9 topology, and the lookup from a cell to its 3 owning groups.

use vstd::prelude::*;

use crate::board::Position;
use crate::board::SudokuBoard;

verus! {

/// Row of member `k` of group `g`. Groups 0..9 are rows, 9..18 are columns,
/// 18..27 are the 3x3 boxes enumerated row-major within the block.
pub open spec fn group_row(g: int, k: int) -> int {
    if g < 9 {
        g
    } else if g < 18 {
        k
    } else {
        ((g - 18) / 3) * 3 + k / 3
    }
}

/// Column of member `k` of group `g`.
pub open spec fn group_col(g: int, k: int) -> int {
    if g < 9 {
        k
    } else if g < 18 {
        g - 9
    } else {
        ((g - 18) % 3) * 3 + k % 3
    }
}

/// Index, in the 27-group table, of the box-group that owns cell (r, c).
pub open spec fn box_group(r: int, c: int) -> int {
    18 + (r / 3) * 3 + c / 3
}

/// Index of the a-th owning group of cell (r, c): its row-group (a = 0),
/// its column-group (a = 1) or its box-group (a = 2).
pub open spec fn owning_group(r: int, c: int, a: int) -> int {
    if a == 0 {
        r
    } else if a == 1 {
        9 + c
    } else {
        box_group(r, c)
    }
}

/// Cell (r, c) is one of the 9 members of group `g`.
pub open spec fn group_member(g: int, r: int, c: int) -> bool {
    exists|k: int| 0 <= k < 9 && group_row(g, k) == r && group_col(g, k) == c
}

/// Two cells share a row, a column or a 3x3 box.
pub open spec fn cell_sees(r1: int, c1: int, r2: int, c2: int) -> bool {
    r1 == r2 || c1 == c2 || (r1 / 3 == r2 / 3 && c1 / 3 == c2 / 3)
}

/// The symbol held by member `k` of group `g` in grid s.
pub open spec fn group_val(s: Seq<u8>, g: int, k: int) -> u8 {
    s[crate::board::cell_index(group_row(g, k), group_col(g, k))]
}

/// Every member of every group is a cell of the 9x9 grid.
pub proof fn lemma_group_pos_range(g: int, k: int)
    requires
        0 <= g < 27,
        0 <= k < 9,
    ensures
        0 <= group_row(g, k) < 9,
        0 <= group_col(g, k) < 9,
        0 <= crate::board::cell_index(group_row(g, k), group_col(g, k)) < 81,
{
}

/// Distinct member slots of one group name distinct cells, so every group
/// holds exactly 9 distinct positions.
pub proof fn lemma_group_members_distinct(g: int, k1: int, k2: int)
    requires
        0 <= g < 27,
        0 <= k1 < 9,
        0 <= k2 < 9,
        k1 != k2,
    ensures
        group_row(g, k1) != group_row(g, k2) || group_col(g, k1) != group_col(g, k2),
{
    if g >= 18 {
        if k1 / 3 == k2 / 3 {
            assert(k1 % 3 != k2 % 3);
        }
    }
}

/// A group contains cell (r, c) exactly when it is that cell's row-group,
/// column-group or box-group; the three kinds never coincide, so every
/// position appears in exactly one group of each kind.
pub proof fn lemma_position_group_membership(g: int, r: int, c: int)
    requires
        0 <= g < 27,
        0 <= r < 9,
        0 <= c < 9,
    ensures
        group_member(g, r, c) <==> (g == r || g == 9 + c || g == box_group(r, c)),
{
    if g == r {
        assert(group_row(g, c) == r && group_col(g, c) == c);
    }
    if g == 9 + c {
        assert(group_row(g, r) == r && group_col(g, r) == c);
    }
    if g == box_group(r, c) {
        let k = (r % 3) * 3 + c % 3;
        assert(0 <= k < 9);
        assert(group_row(g, k) == r && group_col(g, k) == c);
    }
    if group_member(g, r, c) {
        let k = choose|k: int| 0 <= k < 9 && group_row(g, k) == r && group_col(g, k) == c;
        if g >= 18 {
            assert(r / 3 == (g - 18) / 3 && c / 3 == (g - 18) % 3);
            assert(g == box_group(r, c));
        }
    }
}

/// The three groups returned for a cell are exactly the groups of the
/// 27-group table that contain that cell.
pub proof fn lemma_owning_groups_exact(r: int, c: int, g: int)
    requires
        0 <= r < 9,
        0 <= c < 9,
        0 <= g < 27,
    ensures
        group_member(g, r, c) <==> exists|a: int| 0 <= a < 3 && g == #[trigger] owning_group(r, c, a),
{
    lemma_position_group_membership(g, r, c);
    if group_member(g, r, c) {
        if g == r {
            assert(g == owning_group(r, c, 0));
        } else if g == 9 + c {
            assert(g == owning_group(r, c, 1));
        } else {
            assert(g == owning_group(r, c, 2));
        }
    }
    if exists|a: int| 0 <= a < 3 && g == #[trigger] owning_group(r, c, a) {
        let a = choose|a: int| 0 <= a < 3 && g == #[trigger] owning_group(r, c, a);
        assert(g == r || g == 9 + c || g == box_group(r, c));
    }
}

/// Cell (r2, c2) lies in one of the 3 owning groups of cell (r1, c1) exactly
/// when the two cells see each other (share a row, column or box).
pub proof fn lemma_sees_owning_group(r1: int, c1: int, r2: int, c2: int)
    requires
        0 <= r1 < 9,
        0 <= c1 < 9,
        0 <= r2 < 9,
        0 <= c2 < 9,
    ensures
        cell_sees(r1, c1, r2, c2) <==> exists|a: int|
            0 <= a < 3 && #[trigger] group_member(owning_group(r1, c1, a), r2, c2),
{
    lemma_position_group_membership(r1, r2, c2);
    lemma_position_group_membership(9 + c1, r2, c2);
    lemma_position_group_membership(box_group(r1, c1), r2, c2);
    if cell_sees(r1, c1, r2, c2) {
        if r1 == r2 {
            assert(group_member(owning_group(r1, c1, 0), r2, c2));
        } else if c1 == c2 {
            assert(group_member(owning_group(r1, c1, 1), r2, c2));
        } else {
            assert(box_group(r1, c1) == box_group(r2, c2));
            assert(group_member(owning_group(r1, c1, 2), r2, c2));
        }
    }
    if exists|a: int| 0 <= a < 3 && #[trigger] group_member(owning_group(r1, c1, a), r2, c2) {
        let a = choose|a: int|
            0 <= a < 3 && #[trigger] group_member(owning_group(r1, c1, a), r2, c2);
        if a == 2 {
            assert(box_group(r2, c2) == box_group(r1, c1));
            assert(r1 / 3 == r2 / 3 && c1 / 3 == c2 / 3);
        }
    }
}

impl SudokuBoard {
    /// The full table of 27 groups: 9 rows, then 9 columns, then 9 boxes,
    /// each an ordered list of 9 positions. Depends only on the topology.
    pub fn get_solvables() -> (r: Vec<Vec<Position>>)
        ensures
            r@.len() == 27,
            forall|g: int| 0 <= g < 27 ==> (#[trigger] r@[g])@.len() == 9,
            forall|g: int, k: int|
                0 <= g < 27 && 0 <= k < 9 ==> (#[trigger] r@[g]@[k]).row as int == group_row(g, k)
                    && r@[g]@[k].col as int == group_col(g, k),
    {
        let mut solvables: Vec<Vec<Position>> = Vec::new();
        // The first 9 groups each walk one row, so only the column varies.
        let mut i: usize = 0;
        while i < 9
            invariant
                i <= 9,
                solvables@.len() == i,
                forall|g: int| 0 <= g < i ==> (#[trigger] solvables@[g])@.len() == 9,
                forall|g: int, k: int|
                    0 <= g < i && 0 <= k < 9 ==> (#[trigger] solvables@[g]@[k]).row as int
                        == group_row(g, k) && solvables@[g]@[k].col as int == group_col(g, k),
            decreases 9 - i,
        {
            let mut grp: Vec<Position> = Vec::new();
            let mut col: usize = 0;
            while col < 9
                invariant
                    col <= 9,
                    grp@.len() == col,
                    forall|k: int|
                        0 <= k < col ==> (#[trigger] grp@[k]).row == i && grp@[k].col as int == k,
                decreases 9 - col,
            {
                grp.push(Position { row: i, col });
                col += 1;
            }
            solvables.push(grp);
            i += 1;
        }
        // The next 9 groups each walk one column, so only the row varies.
        i = 0;
        while i < 9
            invariant
                i <= 9,
                solvables@.len() == 9 + i,
                forall|g: int| 0 <= g < 9 + i ==> (#[trigger] solvables@[g])@.len() == 9,
                forall|g: int, k: int|
                    0 <= g < 9 + i && 0 <= k < 9 ==> (#[trigger] solvables@[g]@[k]).row as int
                        == group_row(g, k) && solvables@[g]@[k].col as int == group_col(g, k),
            decreases 9 - i,
        {
            let mut grp: Vec<Position> = Vec::new();
            let mut row: usize = 0;
            while row < 9
                invariant
                    row <= 9,
                    grp@.len() == row,
                    forall|k: int|
                        0 <= k < row ==> (#[trigger] grp@[k]).row as int == k && grp@[k].col == i,
                decreases 9 - row,
            {
                grp.push(Position { row, col: i });
                row += 1;
            }
            solvables.push(grp);
            i += 1;
        }
        // The last 9 groups walk the 3x3 boxes in row-major order.
        i = 0;
        while i < 9
            invariant
                i <= 9,
                solvables@.len() == 18 + i,
                forall|g: int| 0 <= g < 18 + i ==> (#[trigger] solvables@[g])@.len() == 9,
                forall|g: int, k: int|
                    0 <= g < 18 + i && 0 <= k < 9 ==> (#[trigger] solvables@[g]@[k]).row as int
                        == group_row(g, k) && solvables@[g]@[k].col as int == group_col(g, k),
            decreases 9 - i,
        {
            let mut grp: Vec<Position> = Vec::new();
            let mut tile: usize = 0;
            while tile < 9
                invariant
                    i < 9,
                    tile <= 9,
                    grp@.len() == tile,
                    forall|k: int|
                        0 <= k < tile ==> (#[trigger] grp@[k]).row as int == group_row(
                            18 + i as int,
                            k,
                        ) && grp@[k].col as int == group_col(18 + i as int, k),
                decreases 9 - tile,
            {
                grp.push(Position { row: (i / 3) * 3 + tile / 3, col: (i % 3) * 3 + tile % 3 });
                tile += 1;
            }
            solvables.push(grp);
            i += 1;
        }
        solvables
    }

    /// The 3 groups owning cell (row, col): its row-group, its column-group
    /// and its box-group, in that order.
    pub fn get_solvables_for(row: usize, col: usize) -> (r: Vec<Vec<Position>>)
        requires
            row < 9,
            col < 9,
        ensures
            r@.len() == 3,
            forall|a: int| 0 <= a < 3 ==> (#[trigger] r@[a])@.len() == 9,
            forall|a: int, k: int|
                0 <= a < 3 && 0 <= k < 9 ==> (#[trigger] r@[a]@[k]).row as int == group_row(
                    owning_group(row as int, col as int, a),
                    k,
                ) && r@[a]@[k].col as int == group_col(owning_group(row as int, col as int, a), k),
    {
        let all_solvables = SudokuBoard::get_solvables();
        let mut solvables: Vec<Vec<Position>> = Vec::new();

        // Groups 0..9 of the table are the row-groups.
        solvables.push(copy_group(&all_solvables[row]));

        // Groups 9..18 of the table are the column-groups.
        solvables.push(copy_group(&all_solvables[col + 9]));

        // Groups 18..27 of the table are the box-groups.
        solvables.push(copy_group(&all_solvables[(col / 3 + (row / 3) * 3) + 18]));

        solvables
    }
}

/// An owned copy of one group's member list.
fn copy_group(src: &Vec<Position>) -> (r: Vec<Position>)
    ensures
        r@ == src@,
{
    let mut r: Vec<Position> = Vec::new();
    let mut j: usize = 0;
    while j < src.len()
        invariant
            j <= src@.len(),
            r@ == src@.subrange(0, j as int),
        decreases src@.len() - j,
    {
        r.push(src[j]);
        j += 1;
    }
    proof {
        assert(r@ =~= src@);
    }
    r
}

} // verus!
