//! Properties of the propagation engine: a solved grid is a valid, complete
//! solution; the outcome is deterministic; and 81 commit rounds always
//! suffice.

use vstd::prelude::*;
use vstd::set_lib::lemma_len_subset;
use crate::grid::at;
use crate::grid::grid_wf;
use crate::engine::SolveError;
use crate::engine::commit;
use crate::engine::count_empty;
use crate::engine::first_single;
use crate::engine::forced;
use crate::engine::is_single;
use crate::engine::lemma_empties_below_le;
use crate::engine::lemma_empties_below_update;
use crate::engine::lemma_empties_below_zero_iff;
use crate::engine::lemma_first_single_from_char;
use crate::engine::single_at;
use crate::engine::single_value;
use crate::engine::solve_from;
use crate::legality::candidate;
use crate::legality::col_seq;
use crate::legality::in_col;
use crate::legality::in_row;
use crate::legality::in_subgrid;
use crate::legality::subgrid_anchor;
use crate::legality::subgrid_cell;
use crate::legality::subgrid_seq;

verus! {

/// The nine digits of row `r`, left to right.
pub open spec fn row_seq(g: Seq<u8>, r: int) -> Seq<u8> {
    Seq::new(9, |c: int| at(g, r, c))
}

/// Every cell holds a placed digit: no cell is empty.
pub open spec fn complete(g: Seq<u8>) -> bool {
    &&& g.len() == 81
    &&& forall|k: int| 0 <= k < 81 ==> 1 <= #[trigger] g[k] <= 9
}

/// The digit placed at `(r, c)` appears nowhere else in its row, column,
/// or 3x3 subgrid.
pub open spec fn cell_consistent(g: Seq<u8>, r: int, c: int) -> bool {
    &&& forall|c2: int| 0 <= c2 < 9 && c2 != c ==> at(g, r, c2) != at(g, r, c)
    &&& forall|r2: int| 0 <= r2 < 9 && r2 != r ==> at(g, r2, c) != at(g, r, c)
    &&& forall|dr: int, dc: int|
        0 <= dr < 3 && 0 <= dc < 3 && !(dr == r % 3 && dc == c % 3) ==> #[trigger] subgrid_cell(
            g,
            r,
            c,
            dr,
            dc,
        ) != at(g, r, c)
}

/// No two placed digits conflict: the grid obeys the placement rules.
pub open spec fn consistent(g: Seq<u8>) -> bool {
    forall|r: int, c: int|
        0 <= r < 9 && 0 <= c < 9 && #[trigger] at(g, r, c) != 0 ==> cell_consistent(g, r, c)
}

/// Reading a committed grid: the written cell holds the new digit and every
/// other cell is unchanged.
pub broadcast proof fn lemma_at_commit(g: Seq<u8>, r: int, c: int, v: u8, r2: int, c2: int)
    requires
        g.len() == 81,
        0 <= r < 9,
        0 <= c < 9,
        0 <= r2 < 9,
        0 <= c2 < 9,
    ensures
        #[trigger] at(commit(g, r, c, v), r2, c2) == (if r2 == r && c2 == c {
            v
        } else {
            at(g, r2, c2)
        }),
{
    assert(0 <= r * 9 + c < 81);
    assert(0 <= r2 * 9 + c2 < 81);
    assert(r2 * 9 + c2 == r * 9 + c <==> (r2 == r && c2 == c));
}

/// Committing a legal digit into an empty cell of a consistent grid keeps
/// the grid consistent.
pub proof fn lemma_commit_keeps_consistent(g: Seq<u8>, r: int, c: int, v: u8)
    requires
        grid_wf(g),
        consistent(g),
        0 <= r < 9,
        0 <= c < 9,
        at(g, r, c) == 0,
        candidate(g, r, c, v),
    ensures
        consistent(commit(g, r, c, v)),
{
    broadcast use lemma_at_commit;

    let g2 = commit(g, r, c, v);
    assert forall|c2: int| 0 <= c2 < 9 implies at(g, r, c2) != v by {
        if at(g, r, c2) == v {
            assert(in_row(g, r, v));
        }
    }
    assert forall|r2: int| 0 <= r2 < 9 implies at(g, r2, c) != v by {
        if at(g, r2, c) == v {
            assert(in_col(g, c, v));
        }
    }
    assert forall|dr: int, dc: int| 0 <= dr < 3 && 0 <= dc < 3 implies #[trigger] subgrid_cell(
        g,
        r,
        c,
        dr,
        dc,
    ) != v by {
        if subgrid_cell(g, r, c, dr, dc) == v {
            assert(in_subgrid(g, r, c, v));
        }
    }
    assert forall|r2: int, c2: int|
        0 <= r2 < 9 && 0 <= c2 < 9 && #[trigger] at(g2, r2, c2) != 0 implies cell_consistent(
        g2,
        r2,
        c2,
    ) by {
        if r2 == r && c2 == c {
            lemma_cell_consistent_new(g, r, c, v);
        } else {
            lemma_cell_consistent_old(g, r, c, v, r2, c2);
        }
    }
}

proof fn lemma_cell_consistent_new(g: Seq<u8>, r: int, c: int, v: u8)
    requires
        grid_wf(g),
        0 <= r < 9,
        0 <= c < 9,
        at(g, r, c) == 0,
        candidate(g, r, c, v),
    ensures
        cell_consistent(commit(g, r, c, v), r, c),
{
    broadcast use lemma_at_commit;

    let g2 = commit(g, r, c, v);
    assert(at(g2, r, c) == v);
    assert forall|c2: int| 0 <= c2 < 9 && c2 != c implies at(g2, r, c2) != at(g2, r, c) by {
        if at(g, r, c2) == v {
            assert(in_row(g, r, v));
        }
    }
    assert forall|r2: int| 0 <= r2 < 9 && r2 != r implies at(g2, r2, c) != at(g2, r, c) by {
        if at(g, r2, c) == v {
            assert(in_col(g, c, v));
        }
    }
    assert forall|dr: int, dc: int|
        0 <= dr < 3 && 0 <= dc < 3 && !(dr == r % 3 && dc == c % 3) implies #[trigger] subgrid_cell(
        g2,
        r,
        c,
        dr,
        dc,
    ) != at(g2, r, c) by {
        let pr = subgrid_anchor(r) + dr;
        let pc = subgrid_anchor(c) + dc;
        assert(0 <= pr < 9 && 0 <= pc < 9);
        assert(!(pr == r && pc == c));
        assert(subgrid_cell(g2, r, c, dr, dc) == at(g2, pr, pc));
        assert(at(g2, pr, pc) == at(g, pr, pc));
        if at(g, pr, pc) == v {
            assert(subgrid_cell(g, r, c, dr, dc) == v);
            assert(in_subgrid(g, r, c, v));
        }
    }
}

proof fn lemma_cell_consistent_old(g: Seq<u8>, r: int, c: int, v: u8, r2: int, c2: int)
    requires
        grid_wf(g),
        consistent(g),
        0 <= r < 9,
        0 <= c < 9,
        at(g, r, c) == 0,
        candidate(g, r, c, v),
        0 <= r2 < 9,
        0 <= c2 < 9,
        !(r2 == r && c2 == c),
        at(commit(g, r, c, v), r2, c2) != 0,
    ensures
        cell_consistent(commit(g, r, c, v), r2, c2),
{
    broadcast use lemma_at_commit;

    let g2 = commit(g, r, c, v);
    let w = at(g, r2, c2);
    assert(at(g2, r2, c2) == w);
    assert(cell_consistent(g, r2, c2));
    // The committed digit cannot collide with `w` in any shared unit.
    assert forall|c3: int| 0 <= c3 < 9 && c3 != c2 implies at(g2, r2, c3) != w by {
        if r2 == r && c3 == c {
            if v == w {
                assert(at(g, r, c2) == v);
                assert(in_row(g, r, v));
            }
        } else {
            assert(at(g2, r2, c3) == at(g, r2, c3));
        }
    }
    assert forall|r3: int| 0 <= r3 < 9 && r3 != r2 implies at(g2, r3, c2) != w by {
        if c2 == c && r3 == r {
            if v == w {
                assert(at(g, r2, c) == v);
                assert(in_col(g, c, v));
            }
        } else {
            assert(at(g2, r3, c2) == at(g, r3, c2));
        }
    }
    assert forall|dr: int, dc: int|
        0 <= dr < 3 && 0 <= dc < 3 && !(dr == r2 % 3 && dc == c2 % 3) implies #[trigger]
    subgrid_cell(g2, r2, c2, dr, dc) != w by {
        let pr = subgrid_anchor(r2) + dr;
        let pc = subgrid_anchor(c2) + dc;
        assert(0 <= pr < 9 && 0 <= pc < 9);
        assert(subgrid_cell(g2, r2, c2, dr, dc) == at(g2, pr, pc));
        if pr == r && pc == c {
            // (r, c) and (r2, c2) share a subgrid, so v == w would have made
            // v present in the subgrid of (r, c) already.
            if v == w {
                assert(subgrid_anchor(r) == subgrid_anchor(r2));
                assert(subgrid_anchor(c) == subgrid_anchor(c2));
                assert(subgrid_cell(g, r, c, r2 - subgrid_anchor(r2), c2 - subgrid_anchor(c2))
                    == at(g, r2, c2));
                assert(in_subgrid(g, r, c, v));
            }
        } else {
            assert(at(g2, pr, pc) == at(g, pr, pc));
            assert(subgrid_cell(g, r2, c2, dr, dc) == at(g, pr, pc));
        }
    }
}

/// Every grid the engine reaches from a consistent starting grid is itself
/// consistent, and a successfully solved grid is in addition complete.
pub proof fn lemma_solve_from_ok(g: Seq<u8>, fuel: nat, s: Seq<u8>)
    requires
        grid_wf(g),
        consistent(g),
        solve_from(g, fuel) == Ok::<Seq<u8>, SolveError>(s),
    ensures
        grid_wf(s),
        consistent(s),
        complete(s),
    decreases fuel,
{
    if count_empty(g) == 0 {
        lemma_empties_below_zero_iff(g, 81);
        assert(s == g);
        assert(complete(s));
    } else {
        assert(fuel != 0);
        lemma_first_single_from_char(g, 0);
        match first_single(g) {
            Some(k) => {
                assert(single_at(g, k));
                let r = k / 9;
                let c = k % 9;
                assert(r * 9 + c == k);
                assert(0 <= r < 9 && 0 <= c < 9);
                let v = single_value(g, r, c);
                assert(forced(g, r, c, v)) by {
                    assert(is_single(g, r, c));
                }
                assert(candidate(g, r, c, v));
                let g2 = commit(g, r, c, v);
                assert(grid_wf(g2));
                lemma_commit_keeps_consistent(g, r, c, v);
                lemma_solve_from_ok(g2, (fuel - 1) as nat, s);
            },
            None => {
                assert(false);
            },
        }
    }
}

proof fn lemma_digit_set()
    ensures
        Set::new(|v: u8| 1 <= v <= 9).finite(),
        Set::new(|v: u8| 1 <= v <= 9).len() == 9,
{
    broadcast use vstd::set::group_set_axioms;

    let s1 = Set::<u8>::empty().insert(1);
    let s2 = s1.insert(2);
    let s3 = s2.insert(3);
    let s4 = s3.insert(4);
    let s5 = s4.insert(5);
    let s6 = s5.insert(6);
    let s7 = s6.insert(7);
    let s8 = s7.insert(8);
    let s9 = s8.insert(9);
    assert(s1.len() == 1);
    assert(s2.len() == 2);
    assert(s3.len() == 3);
    assert(s4.len() == 4);
    assert(s5.len() == 5);
    assert(s6.len() == 6);
    assert(s7.len() == 7);
    assert(s8.len() == 8);
    assert(s9.len() == 9);
    assert(Set::new(|v: u8| 1 <= v <= 9) =~= s9);
}

/// Pigeonhole for one unit: nine pairwise-distinct digits drawn from 1-9
/// must cover every digit 1-9.
proof fn lemma_nine_distinct_digits(q: Seq<u8>)
    requires
        q.len() == 9,
        forall|i: int| 0 <= i < 9 ==> 1 <= #[trigger] q[i] <= 9,
        forall|i: int, j: int| 0 <= i < j < 9 ==> q[i] != q[j],
    ensures
        forall|d: u8| 1 <= d <= 9 ==> q.contains(d),
{
    broadcast use vstd::set::group_set_axioms;

    assert(q.no_duplicates());
    q.unique_seq_to_set();
    let qs = q.to_set();
    let digits = Set::new(|v: u8| 1 <= v <= 9);
    lemma_digit_set();
    assert forall|x: u8| qs.contains(x) implies digits.contains(x) by {
        assert(q.contains(x));
        let i = choose|i: int| 0 <= i < q.len() && q[i] == x;
        assert(1 <= q[i] <= 9);
    }
    assert forall|d: u8| 1 <= d <= 9 implies q.contains(d) by {
        if !q.contains(d) {
            assert(!qs.contains(d));
            let digits2 = digits.remove(d);
            assert(qs.subset_of(digits2));
            assert(digits2.finite());
            assert(digits2.len() == 8);
            lemma_len_subset(qs, digits2);
            assert(false);
        }
    }
}

/// Idempotent completeness: when `solve_from` succeeds on a consistent
/// grid, the result has no empty cell and every row, every column, and
/// every 3x3 subgrid holds each digit 1-9 exactly once (`consistent`
/// rules out a second occurrence; the `contains` clauses guarantee the
/// first).
pub proof fn lemma_solved_grid_valid(g: Seq<u8>, s: Seq<u8>)
    requires
        grid_wf(g),
        consistent(g),
        solve_from(g, 81) == Ok::<Seq<u8>, SolveError>(s),
    ensures
        complete(s),
        consistent(s),
        forall|r: int, d: u8| 0 <= r < 9 && 1 <= d <= 9 ==> #[trigger] row_seq(s, r).contains(d),
        forall|c: int, d: u8| 0 <= c < 9 && 1 <= d <= 9 ==> #[trigger] col_seq(s, c).contains(d),
        forall|r: int, c: int, d: u8|
            0 <= r < 9 && 0 <= c < 9 && 1 <= d <= 9 ==> #[trigger] subgrid_seq(s, r, c).contains(
                d,
            ),
{
    lemma_solve_from_ok(g, 81, s);
    assert forall|r: int, d: u8| 0 <= r < 9 && 1 <= d <= 9 implies #[trigger] row_seq(
        s,
        r,
    ).contains(d) by {
        let q = row_seq(s, r);
        assert forall|i: int| 0 <= i < 9 implies 1 <= #[trigger] q[i] <= 9 by {
            assert(q[i] == at(s, r, i));
            assert(1 <= s[r * 9 + i] <= 9);
        }
        assert forall|i: int, j: int| 0 <= i < j < 9 implies q[i] != q[j] by {
            assert(at(s, r, i) != 0);
            assert(cell_consistent(s, r, i));
            assert(at(s, r, j) != at(s, r, i));
        }
        lemma_nine_distinct_digits(q);
    }
    assert forall|c: int, d: u8| 0 <= c < 9 && 1 <= d <= 9 implies #[trigger] col_seq(
        s,
        c,
    ).contains(d) by {
        let q = col_seq(s, c);
        assert forall|i: int| 0 <= i < 9 implies 1 <= #[trigger] q[i] <= 9 by {
            assert(q[i] == at(s, i, c));
            assert(1 <= s[i * 9 + c] <= 9);
        }
        assert forall|i: int, j: int| 0 <= i < j < 9 implies q[i] != q[j] by {
            assert(at(s, i, c) != 0);
            assert(cell_consistent(s, i, c));
            assert(at(s, j, c) != at(s, i, c));
        }
        lemma_nine_distinct_digits(q);
    }
    assert forall|r: int, c: int, d: u8|
        0 <= r < 9 && 0 <= c < 9 && 1 <= d <= 9 implies #[trigger] subgrid_seq(s, r, c).contains(
        d,
    ) by {
        let q = subgrid_seq(s, r, c);
        let ar = subgrid_anchor(r);
        let ac = subgrid_anchor(c);
        assert(0 <= ar <= 6 && 0 <= ac <= 6 && ar % 3 == 0 && ac % 3 == 0);
        assert forall|i: int| 0 <= i < 9 implies 1 <= #[trigger] q[i] <= 9 by {
            assert(q[i] == at(s, ar + i / 3, ac + i % 3));
            assert(1 <= s[(ar + i / 3) * 9 + (ac + i % 3)] <= 9);
        }
        assert forall|i: int, j: int| 0 <= i < j < 9 implies q[i] != q[j] by {
            let pr = ar + i / 3;
            let pc = ac + i % 3;
            assert(q[i] == at(s, pr, pc));
            assert(at(s, pr, pc) != 0);
            assert(cell_consistent(s, pr, pc));
            assert(subgrid_anchor(pr) == ar && subgrid_anchor(pc) == ac);
            assert(pr % 3 == i / 3 && pc % 3 == i % 3);
            assert(!(j / 3 == pr % 3 && j % 3 == pc % 3));
            assert(subgrid_cell(s, pr, pc, j / 3, j % 3) == at(s, ar + j / 3, ac + j % 3));
            assert(subgrid_cell(s, pr, pc, j / 3, j % 3) != at(s, pr, pc));
            assert(q[j] == at(s, ar + j / 3, ac + j % 3));
        }
        lemma_nine_distinct_digits(q);
    }
}

/// Placed digits are never un-committed: a successful solve agrees with
/// the starting grid on every cell that was already filled.
pub proof fn lemma_solve_preserves_givens(g: Seq<u8>, fuel: nat, s: Seq<u8>)
    requires
        grid_wf(g),
        solve_from(g, fuel) == Ok::<Seq<u8>, SolveError>(s),
    ensures
        s.len() == 81,
        forall|k: int| 0 <= k < 81 && g[k] != 0 ==> s[k] == g[k],
    decreases fuel,
{
    if count_empty(g) == 0 {
    } else {
        assert(fuel != 0);
        lemma_first_single_from_char(g, 0);
        match first_single(g) {
            Some(k) => {
                assert(single_at(g, k));
                let r = k / 9;
                let c = k % 9;
                assert(r * 9 + c == k);
                assert(0 <= r < 9 && 0 <= c < 9);
                let v = single_value(g, r, c);
                assert(forced(g, r, c, v)) by {
                    assert(is_single(g, r, c));
                }
                assert(candidate(g, r, c, v));
                assert(g[k] == 0) by {
                    assert(at(g, r, c) == 0);
                }
                let g2 = commit(g, r, c, v);
                assert(g2 == g.update(k, v));
                assert(grid_wf(g2));
                lemma_solve_preserves_givens(g2, (fuel - 1) as nat, s);
                assert forall|j: int| 0 <= j < 81 && g[j] != 0 implies s[j] == g[j] by {
                    assert(g2[j] == g[j]);
                }
            },
            None => {
                assert(false);
            },
        }
    }
}

/// Determinism: the engine's outcome is a pure function of the input grid,
/// so two solve runs on the same grid return the same result, success or
/// the same failure kind.
pub proof fn lemma_solve_deterministic(
    g: Seq<u8>,
    r1: Result<Seq<u8>, SolveError>,
    r2: Result<Seq<u8>, SolveError>,
)
    requires
        r1 == solve_from(g, 81),
        r2 == solve_from(g, 81),
    ensures
        r1 == r2,
{
}

/// The engine's outcome does not depend on the fuel once the fuel covers
/// the number of empty cells: every commit round fills one empty cell.
pub proof fn lemma_solve_fuel(g: Seq<u8>, fuel1: nat, fuel2: nat)
    requires
        grid_wf(g),
        fuel1 >= count_empty(g),
        fuel2 >= count_empty(g),
    ensures
        solve_from(g, fuel1) == solve_from(g, fuel2),
    decreases count_empty(g),
{
    if count_empty(g) == 0 {
    } else {
        assert(fuel1 > 0 && fuel2 > 0);
        lemma_first_single_from_char(g, 0);
        match first_single(g) {
            Some(k) => {
                assert(single_at(g, k));
                let r = k / 9;
                let c = k % 9;
                assert(r * 9 + c == k);
                assert(0 <= r < 9 && 0 <= c < 9);
                let v = single_value(g, r, c);
                assert(forced(g, r, c, v)) by {
                    assert(is_single(g, r, c));
                }
                assert(candidate(g, r, c, v));
                assert(v != 0);
                assert(g[k] == 0) by {
                    assert(at(g, r, c) == 0);
                }
                let g2 = commit(g, r, c, v);
                assert(g2 == g.update(k, v));
                lemma_empties_below_update(g, k, v, 81);
                assert(count_empty(g2) == count_empty(g) - 1);
                assert(grid_wf(g2));
                lemma_solve_fuel(g2, (fuel1 - 1) as nat, (fuel2 - 1) as nat);
            },
            None => {},
        }
    }
}

/// Termination bound: the engine commits at most 81 rounds whatever the
/// input; granting it any larger round budget never changes the outcome.
pub proof fn lemma_termination_bound(g: Seq<u8>, fuel: nat)
    requires
        grid_wf(g),
        fuel >= 81,
    ensures
        solve_from(g, fuel) == solve_from(g, 81),
{
    lemma_empties_below_le(g, 81);
    lemma_solve_fuel(g, fuel, 81);
}

} // verus!

