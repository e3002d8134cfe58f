//! Legality calculation: which digits may still be placed in an empty cell,
//! given the digits already present in its row, its column, and its 3x3
//! subgrid.

use vstd::prelude::*;
use crate::grid::at;
use crate::grid::grid_wf;
use crate::grid::Grid;

verus! {

broadcast use {
    vstd::seq_lib::lemma_seq_contains_after_push,
    Seq::lemma_filter_push,
    Seq::lemma_take_succ_push,
};

/// Digit `v` appears somewhere in row `r`.
pub open spec fn in_row(g: Seq<u8>, r: int, v: u8) -> bool {
    exists|c: int| 0 <= c < 9 && at(g, r, c) == v
}

/// Digit `v` appears somewhere in column `c`.
pub open spec fn in_col(g: Seq<u8>, c: int, v: u8) -> bool {
    exists|r: int| 0 <= r < 9 && at(g, r, c) == v
}

/// Top-left anchor coordinate of the 3x3 subgrid containing coordinate `x`.
pub open spec fn subgrid_anchor(x: int) -> int {
    x - x % 3
}

/// The digit at offset `(dr, dc)` inside the 3x3 subgrid containing cell
/// `(r, c)`.
pub open spec fn subgrid_cell(g: Seq<u8>, r: int, c: int, dr: int, dc: int) -> u8 {
    at(g, subgrid_anchor(r) + dr, subgrid_anchor(c) + dc)
}

/// Digit `v` appears somewhere in the 3x3 subgrid containing cell `(r, c)`.
pub open spec fn in_subgrid(g: Seq<u8>, r: int, c: int, v: u8) -> bool {
    exists|dr: int, dc: int|
        0 <= dr < 3 && 0 <= dc < 3 && #[trigger] subgrid_cell(g, r, c, dr, dc) == v
}

/// Digit `v` is legal at the empty cell `(r, c)`: it is a digit 1-9 that is
/// absent from the cell's row, column, and 3x3 subgrid.
pub open spec fn candidate(g: Seq<u8>, r: int, c: int, v: u8) -> bool {
    &&& 1 <= v <= 9
    &&& !in_row(g, r, v)
    &&& !in_col(g, c, v)
    &&& !in_subgrid(g, r, c, v)
}

/// The nine digits of column `c`, top to bottom.
pub open spec fn col_seq(g: Seq<u8>, c: int) -> Seq<u8> {
    Seq::new(9, |r: int| at(g, r, c))
}

/// The nine digits of the 3x3 subgrid containing cell `(r, c)`, row by row.
pub open spec fn subgrid_seq(g: Seq<u8>, r: int, c: int) -> Seq<u8> {
    Seq::new(9, |k: int| at(g, subgrid_anchor(r) + k / 3, subgrid_anchor(c) + k % 3))
}

/// The placed (non-zero) digits of `s`, in order.
pub open spec fn placed(s: Seq<u8>) -> Seq<u8> {
    s.filter(|x: u8| x != 0)
}

/// Collects the digits already placed in column `col`, top to bottom.
pub fn get_col_numbers(table: &Grid, col: usize) -> (nums: Vec<u8>)
    requires
        table.wf(),
        col < 9,
    ensures
        nums@ == placed(col_seq(table@, col as int)),
        forall|v: u8| nums@.contains(v) <==> (v != 0 && in_col(table@, col as int, v)),
{
    let ghost cs = col_seq(table@, col as int);
    let mut nums: Vec<u8> = Vec::new();
    let mut r: usize = 0;
    while r < 9
        invariant
            table.wf(),
            col < 9,
            r <= 9,
            cs == col_seq(table@, col as int),
            nums@ == placed(cs.take(r as int)),
            forall|v: u8| nums@.contains(v) <==> (v != 0 && exists|i: int|
                0 <= i < r && at(table@, i, col as int) == v),
        decreases 9 - r,
    {
        let v = table.get(r, col);
        proof {
            assert(cs[r as int] == at(table@, r as int, col as int));
            assert(cs.take(r as int + 1) == cs.take(r as int).push(cs[r as int]));
        }
        if v != 0 {
            nums.push(v);
        }
        r = r + 1;
    }
    proof {
        assert(cs.take(9) =~= cs);
    }
    nums
}

/// Collects the digits already placed in the 3x3 subgrid containing `cell`,
/// row by row.
pub fn get_subgrid_numbers(table: &Grid, cell: (usize, usize)) -> (nums: Vec<u8>)
    requires
        table.wf(),
        cell.0 < 9,
        cell.1 < 9,
    ensures
        nums@ == placed(subgrid_seq(table@, cell.0 as int, cell.1 as int)),
        forall|v: u8| nums@.contains(v) <==> (v != 0 && in_subgrid(
            table@,
            cell.0 as int,
            cell.1 as int,
            v,
        )),
{
    let anchor_r = (cell.0 / 3) * 3;
    let anchor_c = (cell.1 / 3) * 3;
    proof {
        assert(anchor_r as int == subgrid_anchor(cell.0 as int));
        assert(anchor_c as int == subgrid_anchor(cell.1 as int));
    }
    let ghost ss = subgrid_seq(table@, cell.0 as int, cell.1 as int);
    let mut nums: Vec<u8> = Vec::new();
    let mut k: usize = 0;
    while k < 9
        invariant
            table.wf(),
            cell.0 < 9,
            cell.1 < 9,
            k <= 9,
            anchor_r as int == subgrid_anchor(cell.0 as int),
            anchor_c as int == subgrid_anchor(cell.1 as int),
            anchor_r <= 6,
            anchor_c <= 6,
            ss == subgrid_seq(table@, cell.0 as int, cell.1 as int),
            nums@ == placed(ss.take(k as int)),
            forall|v: u8| nums@.contains(v) <==> (v != 0 && exists|j: int|
                0 <= j < k && ss[j] == v),
        decreases 9 - k,
    {
        let v = table.get(anchor_r + k / 3, anchor_c + k % 3);
        proof {
            assert(ss[k as int] == at(
                table@,
                anchor_r as int + k as int / 3,
                anchor_c as int + k as int % 3,
            ));
            assert(ss.take(k as int + 1) == ss.take(k as int).push(ss[k as int]));
        }
        if v != 0 {
            nums.push(v);
        }
        k = k + 1;
    }
    proof {
        assert(ss.take(9) =~= ss);
        assert forall|v: u8| nums@.contains(v) implies (v != 0 && in_subgrid(
            table@,
            cell.0 as int,
            cell.1 as int,
            v,
        )) by {
            let j = choose|j: int| 0 <= j < 9 && ss[j] == v;
            assert(0 <= j / 3 < 3 && 0 <= j % 3 < 3);
            assert(subgrid_cell(table@, cell.0 as int, cell.1 as int, j / 3, j % 3) == v);
        }
        assert forall|v: u8|
            v != 0 && in_subgrid(table@, cell.0 as int, cell.1 as int, v) implies nums@.contains(
            v,
        ) by {
            let (dr, dc) = choose|dr: int, dc: int|
                0 <= dr < 3 && 0 <= dc < 3 && #[trigger] subgrid_cell(
                    table@,
                    cell.0 as int,
                    cell.1 as int,
                    dr,
                    dc,
                ) == v;
            let j = 3 * dr + dc;
            assert(j / 3 == dr && j % 3 == dc) by (nonlinear_arith)
                requires 0 <= dr < 3 && 0 <= dc < 3 && j == 3 * dr + dc;
            assert(ss[j] == v);
        }
    }
    nums
}

/// Does row `r` hold digit `v` anywhere?
fn row_has(table: &Grid, r: usize, v: u8) -> (b: bool)
    requires
        table.wf(),
        r < 9,
    ensures
        b == in_row(table@, r as int, v),
{
    let mut c: usize = 0;
    while c < 9
        invariant
            table.wf(),
            r < 9,
            c <= 9,
            forall|j: int| 0 <= j < c ==> at(table@, r as int, j) != v,
        decreases 9 - c,
    {
        if table.get(r, c) == v {
            return true;
        }
        c = c + 1;
    }
    false
}

/// Does the vector hold the value `x`?
fn contains_val(nums: &Vec<u8>, x: u8) -> (b: bool)
    ensures
        b == nums@.contains(x),
{
    let n = nums.len();
    let mut k: usize = 0;
    while k < n
        invariant
            k <= n,
            n == nums@.len(),
            forall|j: int| 0 <= j < k ==> nums@[j] != x,
        decreases n - k,
    {
        if nums[k] == x {
            return true;
        }
        k = k + 1;
    }
    false
}

/// Computes the Possibility Set of the empty cell `cell`: the digits 1-9
/// not already present in its row, column, or 3x3 subgrid, in ascending
/// order without duplicates.
pub fn calculate_possibilities_for_cell(table: &Grid, cell: (usize, usize)) -> (poss: Vec<u8>)
    requires
        table.wf(),
        cell.0 < 9,
        cell.1 < 9,
        at(table@, cell.0 as int, cell.1 as int) == 0,
    ensures
        forall|v: u8| poss@.contains(v) <==> candidate(table@, cell.0 as int, cell.1 as int, v),
        forall|i: int, j: int| 0 <= i < j < poss@.len() ==> poss@[i] < poss@[j],
{
    let col_numbers = get_col_numbers(table, cell.1);
    let subgrid_numbers = get_subgrid_numbers(table, cell);
    let mut poss: Vec<u8> = Vec::new();
    let mut v: u8 = 1;
    while v <= 9
        invariant
            table.wf(),
            cell.0 < 9,
            cell.1 < 9,
            1 <= v <= 10,
            forall|w: u8| col_numbers@.contains(w) <==> (w != 0 && in_col(
                table@,
                cell.1 as int,
                w,
            )),
            forall|w: u8| subgrid_numbers@.contains(w) <==> (w != 0 && in_subgrid(
                table@,
                cell.0 as int,
                cell.1 as int,
                w,
            )),
            forall|w: u8| poss@.contains(w) <==> (w < v && candidate(
                table@,
                cell.0 as int,
                cell.1 as int,
                w,
            )),
            forall|i: int| 0 <= i < poss@.len() ==> poss@[i] < v,
            forall|i: int, j: int| 0 <= i < j < poss@.len() ==> poss@[i] < poss@[j],
        decreases 10 - v,
    {
        let legal = !row_has(table, cell.0, v) && !contains_val(&col_numbers, v) && !contains_val(
            &subgrid_numbers,
            v,
        );
        if legal {
            poss.push(v);
        }
        v = v + 1;
    }
    poss
}

/// Row exclusion: a digit that is legal at an empty cell does not appear
/// anywhere in that cell's row.
pub proof fn lemma_row_exclusion(g: Seq<u8>, r: int, c: int, v: u8)
    requires
        grid_wf(g),
        0 <= r < 9,
        0 <= c < 9,
        at(g, r, c) == 0,
        candidate(g, r, c, v),
    ensures
        forall|c2: int| 0 <= c2 < 9 ==> at(g, r, c2) != v,
{
}

/// Column exclusion: a digit that is legal at an empty cell does not appear
/// anywhere in that cell's column.
pub proof fn lemma_col_exclusion(g: Seq<u8>, r: int, c: int, v: u8)
    requires
        grid_wf(g),
        0 <= r < 9,
        0 <= c < 9,
        at(g, r, c) == 0,
        candidate(g, r, c, v),
    ensures
        forall|r2: int| 0 <= r2 < 9 ==> at(g, r2, c) != v,
{
}

/// Subgrid exclusion: a digit that is legal at an empty cell does not appear
/// anywhere in that cell's 3x3 subgrid.
pub proof fn lemma_subgrid_exclusion(g: Seq<u8>, r: int, c: int, v: u8)
    requires
        grid_wf(g),
        0 <= r < 9,
        0 <= c < 9,
        at(g, r, c) == 0,
        candidate(g, r, c, v),
    ensures
        forall|dr: int, dc: int|
            0 <= dr < 3 && 0 <= dc < 3 ==> #[trigger] subgrid_cell(g, r, c, dr, dc) != v,
{
}

} // verus!
