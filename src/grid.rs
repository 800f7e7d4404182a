use crate::relation::{holds, Constraint};
use vstd::arithmetic::div_mod::{lemma_fundamental_div_mod, lemma_fundamental_div_mod_converse};
use vstd::prelude::*;
use vstd::set_lib::{lemma_int_range, lemma_map_size, lemma_subset_equality, set_int_range};

verus! {

/// Cell `(r, c)` of an `n`-by-`n` grid sits at `c + r * n`.
pub open spec fn index(n: nat, r: int, c: int) -> int {
    c + r * n
}

/// Two cells of an `n`-by-`n` grid that share a row or a column.
pub open spec fn aligned(n: nat, i: int, j: int) -> bool {
    i / (n as int) == j / (n as int) || i % (n as int) == j % (n as int)
}

/// Row `r` of the grid, left to right.
pub open spec fn row_of(n: nat, g: Seq<u32>, r: int) -> Seq<u32> {
    Seq::new(n, |c: int| g[index(n, r, c)])
}

/// Column `c` of the grid, top to bottom.
pub open spec fn col_of(n: nat, g: Seq<u32>, c: int) -> Seq<u32> {
    Seq::new(n, |r: int| g[index(n, r, c)])
}

/// `s` holds each of `1..=n` exactly once.
pub open spec fn is_permutation(n: nat, s: Seq<u32>) -> bool {
    &&& s.len() == n
    &&& s.no_duplicates()
    &&& forall|k: int| 0 <= k < s.len() ==> 1 <= #[trigger] s[k] <= n
    &&& forall|v: u32| 1 <= v <= n ==> #[trigger] s.contains(v)
}

/// Every row and every column holds each of `1..=n` exactly once.
pub open spec fn is_latin(n: nat, g: Seq<u32>) -> bool {
    &&& g.len() == n * n
    &&& forall|r: int| 0 <= r < n ==> is_permutation(n, #[trigger] row_of(n, g, r))
    &&& forall|c: int| 0 <= c < n ==> is_permutation(n, #[trigger] col_of(n, g, c))
}

/// No cell is empty (0).
pub open spec fn is_full(g: Seq<u32>) -> bool {
    forall|i: int| 0 <= i < g.len() ==> #[trigger] g[i] != 0
}

/// `s` keeps every value that `g` has filled in.
pub open spec fn extends(s: Seq<u32>, g: Seq<u32>) -> bool {
    &&& s.len() == g.len()
    &&& forall|i: int| 0 <= i < g.len() && g[i] != 0 ==> #[trigger] s[i] == g[i]
}

/// Every value is empty or in `1..=n`.
pub open spec fn in_range(n: nat, g: Seq<u32>) -> bool {
    forall|i: int| 0 <= i < g.len() ==> #[trigger] g[i] <= n
}

/// A completed puzzle: a Latin square in which every registered constraint holds.
pub open spec fn is_solution(n: nat, cons: Seq<Constraint>, s: Seq<u32>) -> bool {
    &&& is_latin(n, s)
    &&& forall|k: int| 0 <= k < cons.len() ==> {
        &&& (#[trigger] cons[k]).cell_a < s.len()
        &&& cons[k].cell_b < s.len()
        &&& holds(cons[k].relation, s[cons[k].cell_a as int] as int, s[cons[k].cell_b as int] as int)
    }
}

/// Some solution keeps the filled cells of `g`.
pub open spec fn solvable(n: nat, cons: Seq<Constraint>, g: Seq<u32>) -> bool {
    exists|s: Seq<u32>| is_solution(n, cons, s) && extends(s, g)
}

/// Filled cells that share a row or column hold different values.
pub open spec fn distinct_filled(n: nat, g: Seq<u32>) -> bool {
    forall|i: int, j: int|
        0 <= i < n * n && 0 <= j < n * n && i != j && #[trigger] aligned(n, i, j) && g[i] != 0 && g[j] != 0
            ==> g[i] != g[j]
}

/// Every registered constraint between two filled cells holds.
pub open spec fn constraints_hold_filled(cons: Seq<Constraint>, g: Seq<u32>) -> bool {
    forall|k: int| 0 <= k < cons.len() && g[(#[trigger] cons[k]).cell_a as int] != 0 && g[cons[k].cell_b as int] != 0
        ==> holds(cons[k].relation, g[cons[k].cell_a as int] as int, g[cons[k].cell_b as int] as int)
}

/// A partial grid with no clash: no value repeats within a row or column among the
/// filled cells, and every registered constraint between two filled cells holds.
pub open spec fn prefilled_ok(n: nat, cons: Seq<Constraint>, g: Seq<u32>) -> bool {
    &&& distinct_filled(n, g)
    &&& constraints_hold_filled(cons, g)
}

/// Every constraint joins two cells of the board.
pub open spec fn cells_in_board(n: nat, cons: Seq<Constraint>) -> bool {
    forall|k: int| 0 <= k < cons.len() ==> (#[trigger] cons[k]).cell_a < n * n && cons[k].cell_b < n * n
}

/// An upper bound on the assignments of a search over `e` empty cells with at most
/// `n` candidates each: every candidate tried at the first cell costs one assignment
/// and a search over the remaining cells.
pub open spec fn search_bound(n: nat, e: nat) -> nat
    decreases e,
{
    if e == 0 {
        0
    } else {
        n * (1 + search_bound(n, (e - 1) as nat))
    }
}

/// The grid that a solve reports: a solution that keeps the given cells.
pub open spec fn solved_output(n: nat, cons: Seq<Constraint>, initial: Seq<u32>, g: Seq<u32>) -> bool {
    &&& is_solution(n, cons, g)
    &&& extends(g, initial)
}

/// The number of empty cells.
pub open spec fn empty_count(g: Seq<u32>) -> nat
    decreases g.len(),
{
    if g.len() == 0 {
        0
    } else {
        empty_count(g.drop_last()) + if g.last() == 0 { 1nat } else { 0nat }
    }
}

pub proof fn lemma_empty_count_fill(g: Seq<u32>, i: int, v: u32)
    requires
        0 <= i < g.len(),
        g[i] == 0,
        v != 0,
    ensures
        empty_count(g.update(i, v)) + 1 == empty_count(g),
    decreases g.len(),
{
    let h = g.update(i, v);
    if i < g.len() - 1 {
        assert(h.drop_last() =~= g.drop_last().update(i, v));
        lemma_empty_count_fill(g.drop_last(), i, v);
    } else {
        assert(h.drop_last() =~= g.drop_last());
    }
}

pub proof fn lemma_empty_count_full(g: Seq<u32>)
    ensures
        is_full(g) <==> empty_count(g) == 0,
    decreases g.len(),
{
    if g.len() > 0 {
        lemma_empty_count_full(g.drop_last());
        if is_full(g) {
            assert forall|i: int| 0 <= i < g.drop_last().len() implies #[trigger] g.drop_last()[i] != 0 by {
                assert(g[i] != 0);
            }
            assert(g[g.len() - 1] != 0);
        }
        if empty_count(g) == 0 {
            assert forall|i: int| 0 <= i < g.len() implies #[trigger] g[i] != 0 by {
                if i < g.len() - 1 {
                    assert(g.drop_last()[i] == g[i]);
                }
            }
        }
    }
}

/// Row and column of a cell given by its index.
pub proof fn lemma_index_coords(n: nat, r: int, c: int)
    requires
        n > 0,
        0 <= r < n,
        0 <= c < n,
    ensures
        0 <= index(n, r, c) < n * n,
        index(n, r, c) / (n as int) == r,
        index(n, r, c) % (n as int) == c,
{
    lemma_fundamental_div_mod_converse(index(n, r, c), n as int, r, c);
    assert(c + r * n < n * n) by (nonlinear_arith)
        requires 0 <= r < n, 0 <= c < n;
    assert(0 <= r * n) by (nonlinear_arith)
        requires 0 <= r, 0 < n;
}

/// A cell's index from its row and column.
pub proof fn lemma_coords_index(n: nat, i: int)
    requires
        0 <= i < n * n,
    ensures
        n > 0,
        0 <= i / (n as int) < n,
        0 <= i % (n as int) < n,
        i == index(n, i / (n as int), i % (n as int)),
{
    assert(n > 0) by (nonlinear_arith)
        requires 0 <= i < n * n;
    lemma_fundamental_div_mod(i, n as int);
    let r = i / (n as int);
    let c = i % (n as int);
    assert(0 <= c < n);
    assert(r * n == n * r) by (nonlinear_arith);
    assert(0 <= r < n) by (nonlinear_arith)
        requires i == c + r * n, 0 <= c < n, 0 <= i < n * n, n > 0;
}

/// `n` distinct values in `1..=n` take every value of `1..=n`.
pub proof fn lemma_pigeonhole(n: nat, s: Seq<u32>)
    requires
        n <= u32::MAX,
        s.len() == n,
        s.no_duplicates(),
        forall|k: int| 0 <= k < s.len() ==> 1 <= #[trigger] s[k] <= n,
    ensures
        forall|v: u32| 1 <= v <= n ==> #[trigger] s.contains(v),
{
    let values = s.to_set();
    s.unique_seq_to_set();
    let f = |i: int| i as u32;
    let range = set_int_range(1, n as int + 1);
    let all = Set::new(|v: u32| 1 <= v <= n);
    lemma_int_range(1, n as int + 1);
    assert(range.map(f) =~= all) by {
        assert forall|v: u32| all.contains(v) implies range.map(f).contains(v) by {
            assert(range.contains(v as int) && f(v as int) == v);
        }
    }
    lemma_map_size(range, all, f);
    assert(values.subset_of(all)) by {
        assert forall|v: u32| values.contains(v) implies all.contains(v) by {
            let k = choose|k: int| 0 <= k < s.len() && s[k] == v;
        }
    }
    vstd::seq_lib::seq_to_set_is_finite(s);
    lemma_subset_equality(values, all);
    assert forall|v: u32| 1 <= v <= n implies #[trigger] s.contains(v) by {
        assert(all.contains(v));
        assert(values.contains(v));
    }
}

/// Two filled cells of one row or column in a Latin square hold different values.
pub proof fn lemma_latin_distinct(n: nat, s: Seq<u32>, i: int, j: int)
    requires
        is_latin(n, s),
        0 <= i < n * n,
        0 <= j < n * n,
        i != j,
        aligned(n, i, j),
    ensures
        s[i] != s[j],
{
    lemma_coords_index(n, i);
    lemma_coords_index(n, j);
    let (ri, ci) = (i / (n as int), i % (n as int));
    let (rj, cj) = (j / (n as int), j % (n as int));
    if ri == rj {
        let row = row_of(n, s, ri);
        assert(is_permutation(n, row));
        assert(row[ci] == s[i] && row[cj] == s[j]);
    } else {
        let col = col_of(n, s, ci);
        assert(is_permutation(n, col));
        assert(col[ri] == s[i] && col[rj] == s[j]);
    }
}

/// A full grid whose rows and columns repeat no value is a Latin square.
pub proof fn lemma_distinct_full_is_latin(n: nat, g: Seq<u32>)
    requires
        n <= u32::MAX,
        g.len() == n * n,
        is_full(g),
        in_range(n, g),
        distinct_filled(n, g),
    ensures
        is_latin(n, g),
{
    assert forall|r: int| 0 <= r < n implies is_permutation(n, #[trigger] row_of(n, g, r)) by {
        let row = row_of(n, g, r);
        assert forall|k: int| 0 <= k < row.len() implies 1 <= #[trigger] row[k] <= n by {
            lemma_index_coords(n, r, k);
        }
        assert forall|a: int, b: int| 0 <= a < row.len() && 0 <= b < row.len() && a != b implies row[a] != row[b] by {
            lemma_index_coords(n, r, a);
            lemma_index_coords(n, r, b);
            assert(aligned(n, index(n, r, a), index(n, r, b)));
        }
        lemma_pigeonhole(n, row);
    }
    assert forall|c: int| 0 <= c < n implies is_permutation(n, #[trigger] col_of(n, g, c)) by {
        let col = col_of(n, g, c);
        assert forall|k: int| 0 <= k < col.len() implies 1 <= #[trigger] col[k] <= n by {
            lemma_index_coords(n, k, c);
        }
        assert forall|a: int, b: int| 0 <= a < col.len() && 0 <= b < col.len() && a != b implies col[a] != col[b] by {
            lemma_index_coords(n, a, c);
            lemma_index_coords(n, b, c);
            assert(aligned(n, index(n, a, c), index(n, b, c)));
        }
        lemma_pigeonhole(n, col);
    }
}

/// A grid that some solution completes repeats no value within a row or column and
/// meets every constraint between two filled cells.
pub proof fn lemma_solvable_prefilled_ok(n: nat, cons: Seq<Constraint>, g: Seq<u32>)
    requires
        solvable(n, cons, g),
    ensures
        prefilled_ok(n, cons, g),
{
    let s = choose|s: Seq<u32>| is_solution(n, cons, s) && extends(s, g);
    assert forall|i: int, j: int|
        0 <= i < n * n && 0 <= j < n * n && i != j && #[trigger] aligned(n, i, j) && g[i] != 0 && g[j] != 0
            implies g[i] != g[j] by {
        lemma_latin_distinct(n, s, i, j);
    }
    assert forall|k: int| 0 <= k < cons.len() && g[(#[trigger] cons[k]).cell_a as int] != 0 && g[cons[k].cell_b as int] != 0
            implies holds(cons[k].relation, g[cons[k].cell_a as int] as int, g[cons[k].cell_b as int] as int) by {
        assert(s[cons[k].cell_a as int] == g[cons[k].cell_a as int]);
        assert(s[cons[k].cell_b as int] == g[cons[k].cell_b as int]);
    }
}

/// A full grid with no clash is a solution.
pub proof fn lemma_full_ok_is_solution(n: nat, cons: Seq<Constraint>, g: Seq<u32>)
    requires
        n <= u32::MAX,
        g.len() == n * n,
        is_full(g),
        in_range(n, g),
        prefilled_ok(n, cons, g),
        cells_in_board(n, cons),
    ensures
        is_solution(n, cons, g),
{
    lemma_distinct_full_is_latin(n, g);
    assert forall|k: int| 0 <= k < cons.len() implies {
        &&& (#[trigger] cons[k]).cell_a < g.len()
        &&& cons[k].cell_b < g.len()
        &&& holds(cons[k].relation, g[cons[k].cell_a as int] as int, g[cons[k].cell_b as int] as int)
    } by {
        assert(g[cons[k].cell_a as int] != 0 && g[cons[k].cell_b as int] != 0);
    }
}

/// One more empty cell at most multiplies the bound by `n` and adds `n`.
pub proof fn lemma_search_bound_step(n: nat, e: nat, k: nat)
    requires
        e >= 1,
        k < n,
    ensures
        (k + 1) * (1 + search_bound(n, (e - 1) as nat)) <= search_bound(n, e),
        k * (1 + search_bound(n, (e - 1) as nat)) + 1 + search_bound(n, (e - 1) as nat) <= search_bound(n, e),
{
    let b = 1 + search_bound(n, (e - 1) as nat);
    assert((k + 1) * b <= n * b) by (nonlinear_arith)
        requires k + 1 <= n, b >= 0;
    assert(k * b + b == (k + 1) * b) by (nonlinear_arith);
}

} // verus!
