//! The propagation engine: repeatedly commit any empty cell whose
//! Possibility Set has exactly one member (a "naked single"), recompute the
//! Possibility Map, and stop when the grid is complete or no progress can be
//! made.

use vstd::prelude::*;
use crate::grid::at;
use crate::grid::grid_wf;
use crate::grid::Grid;
use crate::legality::calculate_possibilities_for_cell;
use crate::legality::candidate;

verus! {

/// Why a grid could not be completed by pure elimination.
#[derive(Clone, Copy, Debug, PartialEq, Eq, Structural)]
pub enum SolveError {
    /// Some empty cell has no legal digit at all: the input is unsatisfiable.
    Contradiction,
    /// No empty cell is down to exactly one legal digit, yet the grid is not
    /// complete: the puzzle needs guessing, beyond pure elimination.
    RequiresSearch,
}

/// Number of empty cells among the first `k` cells of the grid sequence.
pub open spec fn empties_below(g: Seq<u8>, k: int) -> nat
    decreases k,
{
    if k <= 0 {
        0
    } else {
        empties_below(g, k - 1) + (if g[k - 1] == 0 {
            1nat
        } else {
            0nat
        })
    }
}

/// Number of empty cells in the grid.
pub open spec fn count_empty(g: Seq<u8>) -> nat {
    empties_below(g, 81)
}

/// Digit `v` is the only legal digit at cell `(r, c)`.
pub open spec fn forced(g: Seq<u8>, r: int, c: int, v: u8) -> bool {
    &&& candidate(g, r, c, v)
    &&& forall|w: u8| #[trigger] candidate(g, r, c, w) ==> w == v
}

/// Cell `(r, c)` is a naked single: empty, with exactly one legal digit.
pub open spec fn is_single(g: Seq<u8>, r: int, c: int) -> bool {
    &&& at(g, r, c) == 0
    &&& exists|v: u8| #[trigger] forced(g, r, c, v)
}

/// The digit a naked single is forced to.
pub open spec fn single_value(g: Seq<u8>, r: int, c: int) -> u8 {
    choose|v: u8| forced(g, r, c, v)
}

/// The cell with flat (row-major) index `k` is a naked single.
pub open spec fn single_at(g: Seq<u8>, k: int) -> bool {
    is_single(g, k / 9, k % 9)
}

/// Flat index of the first naked single at or after flat index `k`, if any.
pub open spec fn first_single_from(g: Seq<u8>, k: int) -> Option<int>
    decreases 81 - k,
{
    if k < 0 || k >= 81 {
        None
    } else if single_at(g, k) {
        Some(k)
    } else {
        first_single_from(g, k + 1)
    }
}

/// Flat index of the first naked single of the grid, in row-major order.
pub open spec fn first_single(g: Seq<u8>) -> Option<int> {
    first_single_from(g, 0)
}

/// Cell `(r, c)` has no legal digit at all.
pub open spec fn no_candidates(g: Seq<u8>, r: int, c: int) -> bool {
    forall|v: u8| !(#[trigger] candidate(g, r, c, v))
}

/// The empty cell with flat index `k` has no legal digit at all.
pub open spec fn zero_candidates(g: Seq<u8>, k: int) -> bool {
    no_candidates(g, k / 9, k % 9)
}

/// Some empty cell of the grid has no legal digit: the grid cannot be
/// completed at all.
pub open spec fn has_contradiction(g: Seq<u8>) -> bool {
    exists|k: int| 0 <= k < 81 && #[trigger] g[k] == 0 && zero_candidates(g, k)
}

/// The grid after writing digit `v` into cell `(r, c)`.
pub open spec fn commit(g: Seq<u8>, r: int, c: int, v: u8) -> Seq<u8> {
    g.update(r * 9 + c, v)
}

/// The outcome of running the propagation engine on `g` for at most `fuel`
/// commit rounds: each round commits the first naked single, in row-major
/// order.  Since every round fills one of at most 81 empty cells, a fuel of
/// 81 always suffices and the fuel-exhausted branch is unreachable from it.
pub open spec fn solve_from(g: Seq<u8>, fuel: nat) -> Result<Seq<u8>, SolveError>
    decreases fuel,
{
    if count_empty(g) == 0 {
        Ok(g)
    } else if fuel == 0 {
        Err(SolveError::RequiresSearch)
    } else {
        match first_single(g) {
            Some(k) => solve_from(
                commit(g, k / 9, k % 9, single_value(g, k / 9, k % 9)),
                (fuel - 1) as nat,
            ),
            None => Err(
                if has_contradiction(g) {
                    SolveError::Contradiction
                } else {
                    SolveError::RequiresSearch
                },
            ),
        }
    }
}

/// One entry of the Possibility Map: an empty cell address paired with its
/// Possibility Set, ascending and without duplicates.
pub open spec fn entry_ok(g: Seq<u8>, e: ((usize, usize), Vec<u8>)) -> bool {
    &&& e.0.0 < 9
    &&& e.0.1 < 9
    &&& at(g, e.0.0 as int, e.0.1 as int) == 0
    &&& forall|v: u8| e.1@.contains(v) <==> candidate(g, e.0.0 as int, e.0.1 as int, v)
    &&& forall|i: int, j: int| 0 <= i < j < e.1@.len() ==> e.1@[i] < e.1@[j]
}

/// Flat (row-major) index of a Possibility Map entry's cell.
pub open spec fn entry_key(e: ((usize, usize), Vec<u8>)) -> int {
    (e.0.0 as int) * 9 + (e.0.1 as int)
}

/// Size of a Possibility Map entry's Possibility Set.
pub open spec fn entry_len(e: ((usize, usize), Vec<u8>)) -> int {
    e.1@.len() as int
}

/// Computes the Possibility Map of the grid: one entry per empty cell, in
/// row-major order, pairing the cell address with its Possibility Set.
pub fn calculate_possibilities(table: &Grid) -> (poss_map: Vec<((usize, usize), Vec<u8>)>)
    requires
        table.wf(),
    ensures
        forall|m: int| 0 <= m < poss_map@.len() ==> entry_ok(table@, #[trigger] poss_map@[m]),
        forall|m1: int, m2: int|
            0 <= m1 < m2 < poss_map@.len() ==> entry_key(#[trigger] poss_map@[m1]) < entry_key(
                #[trigger] poss_map@[m2],
            ),
        forall|r: int, c: int|
            0 <= r < 9 && 0 <= c < 9 && #[trigger] at(table@, r, c) == 0 ==> exists|m: int|
                0 <= m < poss_map@.len() && entry_key(#[trigger] poss_map@[m]) == r * 9 + c,
{
    let mut poss_map: Vec<((usize, usize), Vec<u8>)> = Vec::new();
    let mut k: usize = 0;
    while k < 81
        invariant
            table.wf(),
            k <= 81,
            forall|m: int|
                0 <= m < poss_map@.len() ==> entry_ok(table@, #[trigger] poss_map@[m])
                    && entry_key(poss_map@[m]) < k,
            forall|m1: int, m2: int|
                0 <= m1 < m2 < poss_map@.len() ==> entry_key(#[trigger] poss_map@[m1]) < entry_key(
                    #[trigger] poss_map@[m2],
                ),
            forall|r: int, c: int|
                0 <= r < 9 && 0 <= c < 9 && r * 9 + c < k && #[trigger] at(table@, r, c) == 0
                    ==> exists|m: int|
                    0 <= m < poss_map@.len() && entry_key(#[trigger] poss_map@[m]) == r * 9 + c,
        decreases 81 - k,
    {
        let r = k / 9;
        let c = k % 9;
        if table.get(r, c) == 0 {
            let p = calculate_possibilities_for_cell(table, (r, c));
            let ghost old_map = poss_map@;
            poss_map.push(((r, c), p));
            proof {
                assert(r * 9 + c == k);
                let last = old_map.len() as int;
                assert(poss_map@[last] == ((r, c), p));
                assert(entry_key(poss_map@[last]) == k);
                assert(entry_ok(table@, poss_map@[last]));
                assert forall|r2: int, c2: int|
                    0 <= r2 < 9 && 0 <= c2 < 9 && r2 * 9 + c2 < k + 1 && #[trigger] at(
                        table@,
                        r2,
                        c2,
                    ) == 0 implies exists|m: int|
                    0 <= m < poss_map@.len() && entry_key(#[trigger] poss_map@[m]) == r2 * 9
                        + c2 by {
                    if r2 * 9 + c2 < k {
                        let m0 = choose|m0: int|
                            0 <= m0 < old_map.len() && entry_key(#[trigger] old_map[m0]) == r2 * 9
                                + c2;
                        assert(poss_map@[m0] == old_map[m0]);
                        assert(entry_key(poss_map@[m0]) == r2 * 9 + c2);
                    } else {
                        assert(entry_key(poss_map@[last]) == r2 * 9 + c2);
                    }
                }
            }
        }
        k = k + 1;
    }
    poss_map
}

/// Index of the first Possibility Map entry whose Possibility Set has
/// exactly one member, if any.
fn find_single_entry(poss_map: &Vec<((usize, usize), Vec<u8>)>) -> (res: Option<usize>)
    ensures
        match res {
            Some(m) => m < poss_map@.len() && entry_len(poss_map@[m as int]) == 1 && (forall|
                j: int,
            |
                0 <= j < m ==> entry_len(#[trigger] poss_map@[j]) != 1),
            None => forall|j: int|
                0 <= j < poss_map@.len() ==> entry_len(#[trigger] poss_map@[j]) != 1,
        },
{
    let n = poss_map.len();
    let mut m: usize = 0;
    while m < n
        invariant
            m <= n,
            n == poss_map@.len(),
            forall|j: int| 0 <= j < m ==> entry_len(#[trigger] poss_map@[j]) != 1,
        decreases n - m,
    {
        let e = &poss_map[m];
        if e.1.len() == 1 {
            return Some(m);
        }
        m = m + 1;
    }
    None
}

/// Does some Possibility Map entry have an empty Possibility Set?
fn has_zero_entry(poss_map: &Vec<((usize, usize), Vec<u8>)>) -> (b: bool)
    ensures
        b <==> exists|j: int|
            0 <= j < poss_map@.len() && entry_len(#[trigger] poss_map@[j]) == 0,
{
    let n = poss_map.len();
    let mut m: usize = 0;
    while m < n
        invariant
            m <= n,
            n == poss_map@.len(),
            forall|j: int| 0 <= j < m ==> entry_len(#[trigger] poss_map@[j]) != 0,
        decreases n - m,
    {
        let e = &poss_map[m];
        if e.1.len() == 0 {
            return true;
        }
        m = m + 1;
    }
    false
}

pub(crate) proof fn lemma_empties_below_le(g: Seq<u8>, k: int)
    requires
        0 <= k,
    ensures
        empties_below(g, k) <= k,
    decreases k,
{
    if k > 0 {
        lemma_empties_below_le(g, k - 1);
    }
}

pub(crate) proof fn lemma_empties_below_zero_iff(g: Seq<u8>, k: int)
    ensures
        (empties_below(g, k) == 0) <==> (forall|j: int| 0 <= j < k ==> #[trigger] g[j] != 0),
    decreases k,
{
    if k > 0 {
        lemma_empties_below_zero_iff(g, k - 1);
    }
}

pub(crate) proof fn lemma_empties_below_update(g: Seq<u8>, m: int, v: u8, k: int)
    requires
        0 <= m < g.len(),
        g[m] == 0,
        v != 0,
        k <= g.len(),
    ensures
        empties_below(g.update(m, v), k) == empties_below(g, k) - (if m < k {
            1int
        } else {
            0int
        }),
    decreases k,
{
    if k > 0 {
        lemma_empties_below_update(g, m, v, k - 1);
    }
}

pub(crate) proof fn lemma_first_single_from_char(g: Seq<u8>, k0: int)
    requires
        0 <= k0 <= 81,
    ensures
        match first_single_from(g, k0) {
            Some(k) => k0 <= k < 81 && single_at(g, k) && (forall|j: int|
                k0 <= j < k ==> !(#[trigger] single_at(g, j))),
            None => forall|j: int| k0 <= j < 81 ==> !(#[trigger] single_at(g, j)),
        },
    decreases 81 - k0,
{
    if k0 < 81 && !single_at(g, k0) {
        lemma_first_single_from_char(g, k0 + 1);
    }
}

proof fn lemma_first_single_is(g: Seq<u8>, k: int)
    requires
        0 <= k < 81,
        single_at(g, k),
        forall|j: int| 0 <= j < k ==> !(#[trigger] single_at(g, j)),
    ensures
        first_single(g) == Some(k),
{
    lemma_first_single_from_char(g, 0);
    match first_single_from(g, 0) {
        Some(k2) => {
            if k2 < k {
                assert(!single_at(g, k2));
            } else if k2 > k {
                assert(!single_at(g, k));
            }
        },
        None => {
            assert(!single_at(g, k));
        },
    }
}

proof fn lemma_first_single_none(g: Seq<u8>)
    requires
        forall|j: int| 0 <= j < 81 ==> !(#[trigger] single_at(g, j)),
    ensures
        first_single(g) == None::<int>,
{
    lemma_first_single_from_char(g, 0);
    match first_single_from(g, 0) {
        Some(k2) => {
            assert(!single_at(g, k2));
        },
        None => {},
    }
}

/// A Possibility Map entry describes a naked single exactly when its
/// Possibility Set has one member; that member is then the forced digit.
proof fn lemma_entry_single(g: Seq<u8>, e: ((usize, usize), Vec<u8>))
    requires
        entry_ok(g, e),
    ensures
        is_single(g, e.0.0 as int, e.0.1 as int) <==> entry_len(e) == 1,
        entry_len(e) == 1 ==> forced(g, e.0.0 as int, e.0.1 as int, e.1@[0]) && single_value(
            g,
            e.0.0 as int,
            e.0.1 as int,
        ) == e.1@[0],
{
    let r = e.0.0 as int;
    let c = e.0.1 as int;
    if entry_len(e) == 1 {
        let v = e.1@[0];
        assert(e.1@.contains(v));
        assert forall|w: u8| #[trigger] candidate(g, r, c, w) implies w == v by {
            assert(e.1@.contains(w));
            let i = choose|i: int| 0 <= i < e.1@.len() && e.1@[i] == w;
            assert(i == 0);
        }
        assert(forced(g, r, c, v));
        assert(is_single(g, r, c));
        let sv = single_value(g, r, c);
        assert(forced(g, r, c, sv));
        assert(candidate(g, r, c, sv));
    }
    if is_single(g, r, c) {
        let v = choose|v: u8| forced(g, r, c, v);
        assert(e.1@.contains(v));
        let i = choose|i: int| 0 <= i < e.1@.len() && e.1@[i] == v;
        if e.1@.len() >= 2 {
            assert(e.1@[0] < e.1@[1]);
            assert(e.1@.contains(e.1@[0]));
            assert(e.1@.contains(e.1@[1]));
            assert(candidate(g, r, c, e.1@[0]));
            assert(candidate(g, r, c, e.1@[1]));
            assert(false);
        }
        assert(e.1@.len() == 1);
    }
}

/// Solves the grid by pure elimination: repeatedly commits the first naked
/// single (in row-major order) until the grid is complete, or fails with
/// `Contradiction` when some empty cell has no legal digit at the stuck
/// state, and with `RequiresSearch` when every remaining empty cell keeps
/// two or more.  The caller's grid is never mutated; the result equals the
/// outcome of the 81-round specification `solve_from`.
pub fn solve(table: &Grid) -> (res: Result<Grid, SolveError>)
    requires
        table.wf(),
    ensures
        (match res {
            Ok(g) => g.wf() && count_empty(g@) == 0 && solve_from(table@, 81) == Ok::<
                Seq<u8>,
                SolveError,
            >(g@),
            Err(e) => solve_from(table@, 81) == Err::<Seq<u8>, SolveError>(e),
        }),
{
    let mut t = table.duplicate();
    let ghost mut fuel: nat = 81;
    proof {
        lemma_empties_below_le(table@, 81);
    }
    loop
        invariant
            t.wf(),
            count_empty(t@) <= fuel,
            solve_from(table@, 81) == solve_from(t@, fuel),
        decreases fuel,
    {
        let poss_map = calculate_possibilities(&t);
        if poss_map.len() == 0 {
            proof {
                assert forall|j: int| 0 <= j < 81 implies t@[j] != 0 by {
                    let r = j / 9;
                    let c = j % 9;
                    assert(r * 9 + c == j);
                    assert(at(t@, r, c) != 0);
                }
                lemma_empties_below_zero_iff(t@, 81);
                assert(solve_from(t@, fuel) == Ok::<Seq<u8>, SolveError>(t@));
            }
            return Ok(t);
        }
        proof {
            let e0 = poss_map@[0];
            assert(entry_ok(t@, e0));
            assert(t@[entry_key(e0)] == 0);
            lemma_empties_below_zero_iff(t@, 81);
            assert(count_empty(t@) != 0);
        }
        let found = find_single_entry(&poss_map);
        match found {
            Some(m) => {
                let entry = &poss_map[m];
                let r = entry.0.0;
                let c = entry.0.1;
                let val = entry.1[0];
                let ghost k = (r as int) * 9 + (c as int);
                let ghost g_old = t@;
                proof {
                    let e = poss_map@[m as int];
                    assert(entry_ok(g_old, e));
                    lemma_entry_single(g_old, e);
                    assert(k / 9 == r as int && k % 9 == c as int);
                    assert(single_at(g_old, k));
                    assert forall|j: int| 0 <= j < k implies !(#[trigger] single_at(
                        g_old,
                        j,
                    )) by {
                        let jr = j / 9;
                        let jc = j % 9;
                        assert(jr * 9 + jc == j);
                        assert(0 <= jr < 9 && 0 <= jc < 9);
                        if at(g_old, jr, jc) == 0 {
                            let m2 = choose|m2: int|
                                0 <= m2 < poss_map@.len() && entry_key(#[trigger] poss_map@[m2])
                                    == jr * 9 + jc;
                            let e2 = poss_map@[m2];
                            assert(entry_ok(g_old, e2));
                            assert((e2.0.0 as int) == jr && (e2.0.1 as int) == jc);
                            assert(m2 != m as int);
                            assert(m2 < m as int) by {
                                if m2 > m as int {
                                    assert(entry_key(poss_map@[m as int]) < entry_key(
                                        poss_map@[m2],
                                    ));
                                }
                            }
                            assert(entry_len(e2) != 1);
                            lemma_entry_single(g_old, e2);
                            assert(!is_single(g_old, jr, jc));
                        }
                    }
                    lemma_first_single_is(g_old, k);
                    assert(single_value(g_old, k / 9, k % 9) == val);
                    assert(1 <= val <= 9);
                }
                t.set(r, c, val);
                proof {
                    assert(t@ == commit(g_old, k / 9, k % 9, single_value(g_old, k / 9, k % 9)));
                    assert(fuel > 0);
                    assert(solve_from(g_old, fuel) == solve_from(t@, (fuel - 1) as nat));
                    lemma_empties_below_update(g_old, k, val, 81);
                    fuel = (fuel - 1) as nat;
                }
            },
            None => {
                proof {
                    assert forall|j: int| 0 <= j < 81 implies !(#[trigger] single_at(
                        t@,
                        j,
                    )) by {
                        let jr = j / 9;
                        let jc = j % 9;
                        assert(jr * 9 + jc == j);
                        assert(0 <= jr < 9 && 0 <= jc < 9);
                        if at(t@, jr, jc) == 0 {
                            let m2 = choose|m2: int|
                                0 <= m2 < poss_map@.len() && entry_key(#[trigger] poss_map@[m2])
                                    == jr * 9 + jc;
                            let e2 = poss_map@[m2];
                            assert(entry_ok(t@, e2));
                            assert((e2.0.0 as int) == jr && (e2.0.1 as int) == jc);
                            assert(entry_len(e2) != 1);
                            lemma_entry_single(t@, e2);
                            assert(!is_single(t@, jr, jc));
                        }
                    }
                    lemma_first_single_none(t@);
                }
                if has_zero_entry(&poss_map) {
                    proof {
                        let j = choose|j: int|
                            0 <= j < poss_map@.len() && entry_len(#[trigger] poss_map@[j]) == 0;
                        let e = poss_map@[j];
                        assert(entry_ok(t@, e));
                        let ek = entry_key(e);
                        assert(t@[ek] == 0);
                        assert(ek / 9 == e.0.0 as int && ek % 9 == e.0.1 as int);
                        assert forall|v: u8| !(#[trigger] candidate(
                            t@,
                            e.0.0 as int,
                            e.0.1 as int,
                            v,
                        )) by {
                            if candidate(t@, e.0.0 as int, e.0.1 as int, v) {
                                assert(e.1@.contains(v));
                                let i = choose|i: int| 0 <= i < e.1@.len() && e.1@[i] == v;
                                assert(false);
                            }
                        }
                        assert(no_candidates(t@, e.0.0 as int, e.0.1 as int));
                        assert(zero_candidates(t@, ek));
                        assert(0 <= ek < 81);
                        assert(has_contradiction(t@));
                        assert(solve_from(t@, fuel) == Err::<Seq<u8>, SolveError>(
                            SolveError::Contradiction,
                        ));
                    }
                    return Err(SolveError::Contradiction);
                } else {
                    proof {
                        assert(!has_contradiction(t@)) by {
                            if has_contradiction(t@) {
                                let bad = choose|k2: int|
                                    0 <= k2 < 81 && #[trigger] t@[k2] == 0 && zero_candidates(
                                        t@,
                                        k2,
                                    );
                                let br = bad / 9;
                                let bc = bad % 9;
                                assert(br * 9 + bc == bad);
                                assert(0 <= br < 9 && 0 <= bc < 9);
                                assert(at(t@, br, bc) == 0);
                                let m2 = choose|m2: int|
                                    0 <= m2 < poss_map@.len() && entry_key(
                                        #[trigger] poss_map@[m2],
                                    ) == br * 9 + bc;
                                let e2 = poss_map@[m2];
                                assert(entry_ok(t@, e2));
                                assert((e2.0.0 as int) == br && (e2.0.1 as int) == bc);
                                assert(entry_len(e2) != 0);
                                let w = e2.1@[0];
                                assert(e2.1@.contains(w));
                                assert(candidate(t@, br, bc, w));
                                assert(!candidate(t@, bad / 9, bad % 9, w));
                                assert(false);
                            }
                        }
                        assert(solve_from(t@, fuel) == Err::<Seq<u8>, SolveError>(
                            SolveError::RequiresSearch,
                        ));
                    }
                    return Err(SolveError::RequiresSearch);
                }
            },
        }
    }
}

} // verus!
