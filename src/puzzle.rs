use crate::grid::{
    empty_count, extends, in_range, index, is_full,
    lemma_index_coords, prefilled_ok, search_bound, solvable, solved_output,
};
use crate::matrix::{Matrix, Outcome, Policy};
use crate::relation::{holds, Constraint, Relation};
use vstd::prelude::*;

verus! {

/// An order constraint between two cells given by row and column: cell
/// `(row_a, col_a)` must stand in `relation` to cell `(row_b, col_b)`.
#[derive(Clone, Copy, Debug, PartialEq, Eq, Structural)]
pub struct OrderConstraint {
    pub row_a: usize,
    pub col_a: usize,
    pub row_b: usize,
    pub col_b: usize,
    pub relation: Relation,
}

/// The constraint between cell indices that `oc` stands for on an `n`-by-`n` board.
pub open spec fn edge_of(n: nat, oc: OrderConstraint) -> Constraint {
    Constraint {
        cell_a: index(n, oc.row_a as int, oc.col_a as int) as usize,
        cell_b: index(n, oc.row_b as int, oc.col_b as int) as usize,
        relation: oc.relation,
    }
}

pub open spec fn edges(n: nat, cs: Seq<OrderConstraint>) -> Seq<Constraint> {
    cs.map_values(|oc: OrderConstraint| edge_of(n, oc))
}

/// What a solve of the puzzle `(n, cons, initial)` under a ceiling of `ceiling`
/// assignments may end with: a solved grid is a solution that keeps the given cells,
/// reached with at least one assignment per empty cell; short of the ceiling the
/// answer is `Unsolvable` exactly when no solution exists; the ceiling is never
/// reached when it is at least `search_bound`, and a ceiling of zero stops any search
/// before it starts; a grid given with a clash is
/// `Unsolvable`, and one given full and without a clash is solved as it stands.
pub open spec fn solves(n: nat, cons: Seq<Constraint>, initial: Seq<u32>, ceiling: nat, outcome: Outcome) -> bool {
    &&& (outcome matches Outcome::Solved(g) ==> solved_output(n, cons, initial, g@) && empty_count(initial) <= ceiling)
    &&& (!(outcome is EffortExceeded) ==> (outcome is Unsolvable <==> !solvable(n, cons, initial)))
    &&& (outcome is EffortExceeded ==> prefilled_ok(n, cons, initial) && !is_full(initial))
    &&& (search_bound(n, empty_count(initial)) <= ceiling ==> !(outcome is EffortExceeded))
    &&& (ceiling == 0 && prefilled_ok(n, cons, initial) && !is_full(initial) ==> outcome is EffortExceeded)
    &&& (!prefilled_ok(n, cons, initial) ==> outcome is Unsolvable)
    &&& (is_full(initial) && prefilled_ok(n, cons, initial) ==> outcome is Solved)
}

/// Solves one puzzle: an `n`-by-`n` grid given row by row (0 for an empty cell), its
/// order constraints, the cell-selection policy and the ceiling on assignments.
pub fn solve_puzzle(
    dim: usize,
    initial: Vec<u32>,
    constraints: &Vec<OrderConstraint>,
    policy: Policy,
    ceiling: u64,
) -> (outcome: Outcome)
    requires
        dim * dim <= usize::MAX,
        dim <= u32::MAX,
        initial@.len() == dim * dim,
        in_range(dim as nat, initial@),
        forall|k: int| 0 <= k < constraints@.len() ==> {
            &&& (#[trigger] constraints@[k]).row_a < dim
            &&& constraints@[k].col_a < dim
            &&& constraints@[k].row_b < dim
            &&& constraints@[k].col_b < dim
        },
    ensures
        solves(dim as nat, edges(dim as nat, constraints@), initial@, ceiling as nat, outcome),
{
    let ghost given = initial@;
    let mut m = Matrix::with_grid(dim, initial);
    let mut k: usize = 0;
    while k < constraints.len()
        invariant
            dim * dim <= usize::MAX,
            forall|k: int| 0 <= k < constraints@.len() ==> {
                &&& (#[trigger] constraints@[k]).row_a < dim
                &&& constraints@[k].col_a < dim
                &&& constraints@[k].row_b < dim
                &&& constraints@[k].col_b < dim
            },
            m.wf(),
            m.dim() == dim,
            m.grid() == given,
            m.attempts() == 0,
            m.domains_sound(),
            k <= constraints@.len(),
            m.constraints() == edges(dim as nat, constraints@.subrange(0, k as int)),
        decreases constraints@.len() - k,
    {
        let oc = constraints[k];
        proof {
            lemma_index_coords(dim as nat, oc.row_a as int, oc.col_a as int);
            lemma_index_coords(dim as nat, oc.row_b as int, oc.col_b as int);
        }
        let cell_a = oc.col_a + oc.row_a * dim;
        let cell_b = oc.col_b + oc.row_b * dim;
        m.add_constraint(cell_a, cell_b, oc.relation);
        k = k + 1;
        proof {
            assert(edges(dim as nat, constraints@.subrange(0, k as int)) =~= edges(dim as nat, constraints@.subrange(0, k - 1)).push(edge_of(dim as nat, oc)));
        }
    }
    proof {
        assert(constraints@.subrange(0, k as int) =~= constraints@);
    }
    m.solve(policy, ceiling)
}

/// In a solved grid every registered constraint holds.
pub proof fn lemma_solved_grid_meets_constraints(
    n: nat,
    cons: Seq<Constraint>,
    initial: Seq<u32>,
    ceiling: nat,
    outcome: Outcome,
)
    requires
        solves(n, cons, initial, ceiling, outcome),
        outcome is Solved,
    ensures
        forall|k: int| 0 <= k < cons.len() ==> holds(
            (#[trigger] cons[k]).relation,
            outcome->Solved_0@[cons[k].cell_a as int] as int,
            outcome->Solved_0@[cons[k].cell_b as int] as int,
        ),
{
}

/// Solving again a grid that a solve returned, with the same constraints, returns
/// that grid unchanged.
pub proof fn lemma_solving_solved_grid_is_identity(
    n: nat,
    cons: Seq<Constraint>,
    initial: Seq<u32>,
    first_ceiling: nat,
    first: Outcome,
    second_ceiling: nat,
    second: Outcome,
)
    requires
        solves(n, cons, initial, first_ceiling, first),
        first is Solved,
        solves(n, cons, first->Solved_0@, second_ceiling, second),
    ensures
        second is Solved,
        second->Solved_0@ == first->Solved_0@,
{
    let g = first->Solved_0@;
    assert(is_full(g)) by {
        assert forall|i: int| 0 <= i < g.len() implies #[trigger] g[i] != 0 by {
            crate::grid::lemma_coords_index(n, i);
            let row = crate::grid::row_of(n, g, i / (n as int));
            assert(row[i % (n as int)] == g[i]);
        }
    }
    assert(solvable(n, cons, g)) by {
        assert(extends(g, g));
    }
    crate::grid::lemma_solvable_prefilled_ok(n, cons, g);
    let h = second->Solved_0@;
    assert(h =~= g) by {
        assert(extends(h, g));
        assert forall|i: int| 0 <= i < g.len() implies h[i] == g[i] by {
            assert(g[i] != 0);
        }
    }
}

/// With a ceiling of zero, a puzzle whose given cells do not clash and which has an
/// empty cell gives up rather than report a result.
pub proof fn lemma_zero_ceiling_exceeds_effort(n: nat, cons: Seq<Constraint>, initial: Seq<u32>, outcome: Outcome)
    requires
        solves(n, cons, initial, 0, outcome),
        prefilled_ok(n, cons, initial),
        !is_full(initial),
    ensures
        outcome is EffortExceeded,
{
}

} // verus!
