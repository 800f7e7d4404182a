use crate::domain::{lemma_max_of, lemma_sorted_len, lemma_sorted_unique, max_of, sorted, DomainTable};
use crate::grid::{
    aligned, cells_in_board, empty_count, extends, in_range, index, is_full, is_solution,
    lemma_coords_index, lemma_empty_count_fill, lemma_empty_count_full, lemma_full_ok_is_solution,
    lemma_index_coords, lemma_latin_distinct, lemma_search_bound_step, prefilled_ok,
    search_bound, solvable, solved_output,
};
use crate::relation::{
    entries_of, flipped, holds, lemma_entry_present, lemma_entry_source, Constraint,
    ConstraintRegistry, Relation,
};
use vstd::prelude::*;

verus! {

/// How the search picks the next empty cell.
#[derive(Clone, Copy, Debug, PartialEq, Eq, Structural)]
pub enum Policy {
    /// The first empty cell; candidates `1..=n` in increasing order.
    Naive,
    /// The empty cell with the fewest candidates left, the lowest index on ties;
    /// candidates in the order of its domain, which the search narrows as it assigns.
    MinimumRemaining,
}

/// What a solve ends with.
#[derive(Debug, PartialEq, Eq)]
pub enum Outcome {
    /// The completed grid, row by row.
    Solved(Vec<u32>),
    /// Every branch was tried; no completion exists.
    Unsolvable,
    /// The ceiling on assignments was reached before the search ended.
    EffortExceeded,
}

/// A row or column outside the board.
#[derive(Clone, Copy, Debug, PartialEq, Eq, Structural)]
pub enum GridError {
    OutOfBounds,
}

/// How a branch of the search ended.
#[derive(Clone, Copy, Debug, PartialEq, Eq, Structural)]
enum Search {
    Solved,
    Unsolvable,
    EffortExceeded,
}

/// Two distinct cells of one row or column.
pub open spec fn neighbors(n: nat, x: int, j: int) -> bool {
    0 <= j < n * n && j != x && aligned(n, x, j)
}

/// Cell `i` is the one that `policy` picks next among the empty cells of `g`.
pub open spec fn picks(policy: Policy, g: Seq<u32>, doms: Seq<Seq<u32>>, i: int) -> bool {
    &&& 0 <= i < g.len()
    &&& g[i] == 0
    &&& match policy {
        Policy::Naive => forall|j: int| 0 <= j < i ==> #[trigger] g[j] != 0,
        Policy::MinimumRemaining => forall|j: int| 0 <= j < g.len() && #[trigger] g[j] == 0 ==>
            doms[i].len() < doms[j].len() || (doms[i].len() == doms[j].len() && i <= j),
    }
}

/// `num` appears in none of the cells of `blocking`.
pub open spec fn unique_at(g: Seq<u32>, blocking: Seq<usize>, num: u32) -> bool {
    forall|k: int| 0 <= k < blocking.len() ==> g[#[trigger] blocking[k] as int] != num
}

/// Placing `num` at cell `x` meets the partner entry `e` of `x`: the relation holds
/// against the partner's value, where the partner is filled (or is `x` itself).
pub open spec fn entry_ok(g: Seq<u32>, x: int, num: u32, e: (usize, Relation)) -> bool {
    let w = if e.0 == x { num } else { g[e.0 as int] };
    w != 0 ==> holds(e.1, num as int, w as int)
}

/// Placing `num` at cell `x` meets every registered constraint on `x` whose other cell
/// is filled.
pub open spec fn orders_at(cons: Seq<Constraint>, g: Seq<u32>, x: int, num: u32) -> bool {
    forall|m: int| 0 <= m < entries_of(cons, x as usize).len() ==> entry_ok(g, x, num, #[trigger] entries_of(cons, x as usize)[m])
}

/// The `k`-th of the values `0..n` other than `s`.
pub open spec fn skip(k: int, s: int) -> int {
    if k < s {
        k
    } else {
        k + 1
    }
}

/// Every solution that keeps the filled cells of `g` takes, at each empty cell, a value
/// still in that cell's domain.
pub open spec fn covers_empty(n: nat, cons: Seq<Constraint>, g: Seq<u32>, doms: Seq<Seq<u32>>) -> bool {
    forall|s: Seq<u32>| is_solution(n, cons, s) && extends(s, g) ==>
        forall|i: int| 0 <= i < g.len() && g[i] == 0 ==> #[trigger] doms[i].contains(s[i])
}

/// The board of an `n`-by-`n` puzzle with its domains, constraints and the count of
/// assignments made by the running solve.
pub struct Matrix {
    rows: usize,
    cols: usize,
    data: Vec<u32>,
    mvr: DomainTable,
    cell_restriction: ConstraintRegistry,
    attributions: u64,
}

impl Matrix {
    pub closed spec fn dim(&self) -> nat {
        self.rows as nat
    }

    /// The cells, row by row; 0 is an empty cell.
    pub closed spec fn grid(&self) -> Seq<u32> {
        self.data@
    }

    pub closed spec fn domains(&self) -> Seq<Seq<u32>> {
        self.mvr@
    }

    /// The registered constraints, in the order they were added.
    pub closed spec fn constraints(&self) -> Seq<Constraint> {
        self.cell_restriction@
    }

    pub closed spec fn attempts(&self) -> nat {
        self.attributions as nat
    }

    pub closed spec fn wf(&self) -> bool {
        &&& self.rows == self.cols
        &&& self.rows * self.rows <= usize::MAX
        &&& self.rows <= u32::MAX
        &&& self.data@.len() == self.rows * self.rows
        &&& in_range(self.rows as nat, self.data@)
        &&& self.mvr.wf()
        &&& self.mvr.dim() == self.rows
        &&& self.mvr@.len() == self.rows * self.rows
        &&& self.cell_restriction.wf()
        &&& self.cell_restriction.cells() == self.rows * self.rows
        &&& cells_in_board(self.rows as nat, self.cell_restriction@)
    }

    /// Every solution of the constraints takes, at every cell, a value of that cell's
    /// domain: the domains rule out nothing a solution needs.
    pub open spec fn domains_sound(&self) -> bool {
        forall|s: Seq<u32>| is_solution(self.dim(), self.constraints(), s) ==>
            forall|i: int| 0 <= i < self.dim() * self.dim() ==> #[trigger] self.domains()[i].contains(s[i])
    }

    /// A puzzle of dimension `dim` with the given cells, every domain full and no
    /// constraints.
    pub fn with_grid(dim: usize, cells: Vec<u32>) -> (m: Matrix)
        requires
            dim * dim <= usize::MAX,
            dim <= u32::MAX,
            cells@.len() == dim * dim,
            in_range(dim as nat, cells@),
        ensures
            m.wf(),
            m.dim() == dim,
            m.grid() == cells@,
            m.constraints() == Seq::<Constraint>::empty(),
            m.attempts() == 0,
            forall|i: int, v: u32| 0 <= i < dim * dim ==> (#[trigger] m.domains()[i].contains(v) <==> 1 <= v <= dim),
            m.domains_sound(),
    {
        let cells_count = dim * dim;
        let m = Matrix {
            rows: dim,
            cols: dim,
            data: cells,
            mvr: DomainTable::new(dim, cells_count),
            cell_restriction: ConstraintRegistry::new(cells_count),
            attributions: 0,
        };
        proof {
            assert forall|s: Seq<u32>| is_solution(m.dim(), m.constraints(), s) implies
                forall|i: int| 0 <= i < m.dim() * m.dim() ==> #[trigger] m.domains()[i].contains(s[i]) by {
                assert forall|i: int| 0 <= i < m.dim() * m.dim() implies #[trigger] m.domains()[i].contains(s[i]) by {
                    lemma_solution_value(dim as nat, m.constraints(), s, i);
                }
            }
        }
        m
    }

    /// An empty puzzle of dimension `dim`.
    pub fn new(dim: usize) -> (m: Matrix)
        requires
            dim * dim <= usize::MAX,
            dim <= u32::MAX,
        ensures
            m.wf(),
            m.dim() == dim,
            m.grid() == Seq::new((dim * dim) as nat, |i: int| 0u32),
            m.constraints() == Seq::<Constraint>::empty(),
            m.attempts() == 0,
            forall|i: int, v: u32| 0 <= i < dim * dim ==> (#[trigger] m.domains()[i].contains(v) <==> 1 <= v <= dim),
            m.domains_sound(),
    {
        let cells_count = dim * dim;
        let mut cells: Vec<u32> = Vec::new();
        let mut i: usize = 0;
        while i < cells_count
            invariant
                i <= cells_count,
                cells@ == Seq::new(i as nat, |k: int| 0u32),
            decreases cells_count - i,
        {
            cells.push(0);
            i = i + 1;
            assert(cells@ =~= Seq::new(i as nat, |k: int| 0u32));
        }
        Matrix::with_grid(dim, cells)
    }

    /// The dimension `n` of the board.
    pub fn dimension(&self) -> (r: usize)
        requires
            self.wf(),
        ensures
            r == self.dim(),
    {
        self.rows
    }

    /// How many assignments the running (or last) solve has made.
    pub fn attempt_count(&self) -> (r: u64)
        ensures
            r == self.attempts(),
    {
        self.attributions
    }

    /// The value at row `r`, column `c`; 0 where the cell is empty.
    pub fn get(&self, r: usize, c: usize) -> (v: Result<u32, GridError>)
        requires
            self.wf(),
        ensures
            r < self.dim() && c < self.dim() ==> v == Ok::<u32, GridError>(self.grid()[index(self.dim(), r as int, c as int)]),
            !(r < self.dim() && c < self.dim()) ==> v == Err::<u32, GridError>(GridError::OutOfBounds),
    {
        if r >= self.rows || c >= self.cols {
            return Err(GridError::OutOfBounds);
        }
        proof {
            lemma_index_coords(self.dim(), r as int, c as int);
        }
        Ok(self.data[c + r * self.cols])
    }

    /// Writes `value` at row `r`, column `c`. Filling a cell counts as an assignment;
    /// clearing it (value 0) does not.
    pub fn set(&mut self, r: usize, c: usize, value: u32)
        requires
            old(self).wf(),
            r < old(self).dim(),
            c < old(self).dim(),
            value <= old(self).dim(),
            value != 0 ==> old(self).attempts() < u64::MAX,
        ensures
            final(self).wf(),
            final(self).dim() == old(self).dim(),
            final(self).grid() == old(self).grid().update(index(old(self).dim(), r as int, c as int), value),
            final(self).attempts() == old(self).attempts() + if value != 0 { 1nat } else { 0nat },
            final(self).domains() == old(self).domains(),
            final(self).constraints() == old(self).constraints(),
            old(self).domains_sound() ==> final(self).domains_sound(),
    {
        proof {
            lemma_index_coords(self.dim(), r as int, c as int);
        }
        self.data.set(c + r * self.rows, value);
        if value != 0 {
            self.attributions = self.attributions + 1;
        }
        proof {
            assert forall|i: int| 0 <= i < self.data@.len() implies #[trigger] self.data@[i] <= self.rows by {
                if i != index(self.dim(), r as int, c as int) {
                    assert(self.data@[i] == old(self).data@[i]);
                }
            }
            if old(self).domains_sound() {
                assert forall|s: Seq<u32>| is_solution(self.dim(), self.constraints(), s) implies
                    forall|i: int| 0 <= i < self.dim() * self.dim() ==> #[trigger] self.domains()[i].contains(s[i]) by {
                    assert(self.domains() == old(self).domains());
                    assert(self.dim() == old(self).dim());
                    assert(self.constraints() == old(self).constraints());
                    assert(is_solution(old(self).dim(), old(self).constraints(), s));
                }
            }
        }
    }

    /// Registers that `cell_a` must stand in `relation` to `cell_b`, and narrows the
    /// domain of the lesser cell once: it keeps only values below the largest value
    /// left to the greater one.
    pub fn add_constraint(&mut self, cell_a: usize, cell_b: usize, relation: Relation)
        requires
            old(self).wf(),
            cell_a < old(self).dim() * old(self).dim(),
            cell_b < old(self).dim() * old(self).dim(),
        ensures
            final(self).wf(),
            final(self).dim() == old(self).dim(),
            final(self).grid() == old(self).grid(),
            final(self).attempts() == old(self).attempts(),
            final(self).constraints() == old(self).constraints().push(Constraint { cell_a, cell_b, relation }),
            ({
                let (greater, lesser) = match relation {
                    Relation::GreaterThan => (cell_a, cell_b),
                    Relation::LessThan => (cell_b, cell_a),
                };
                &&& final(self).domains() == old(self).domains().update(lesser as int, final(self).domains()[lesser as int])
                &&& forall|x: u32| #[trigger] final(self).domains()[lesser as int].contains(x)
                    <==> old(self).domains()[lesser as int].contains(x) && x < max_of(old(self).domains()[greater as int])
            }),
            old(self).domains_sound() ==> final(self).domains_sound(),
    {
        self.cell_restriction.add_constraint(cell_a, cell_b, relation);
        let (greater, lesser) = match relation {
            Relation::GreaterThan => (cell_a, cell_b),
            Relation::LessThan => (cell_b, cell_a),
        };
        self.update_mvr(greater, lesser);
        proof {
            assert forall|k: int| 0 <= k < self.constraints().len() implies
                (#[trigger] self.constraints()[k]).cell_a < self.dim() * self.dim() && self.constraints()[k].cell_b < self.dim() * self.dim() by {
                if k < old(self).constraints().len() {
                    assert(self.constraints()[k] == old(self).constraints()[k]);
                }
            }
            if old(self).domains_sound() {
                let n = self.dim();
                let cons = self.constraints();
                assert forall|s: Seq<u32>| is_solution(n, cons, s) implies
                    forall|i: int| 0 <= i < n * n ==> #[trigger] self.domains()[i].contains(s[i]) by {
                    assert(cons.drop_last() =~= old(self).constraints());
                    assert forall|k: int| 0 <= k < old(self).constraints().len() implies
                        #[trigger] old(self).constraints()[k] == cons[k] by {}
                    assert(is_solution(n, old(self).constraints(), s));
                    assert(n == old(self).dim());
                    let last = cons.len() - 1;
                    assert(cons[last] == Constraint { cell_a, cell_b, relation });
                    assert(holds(relation, s[cell_a as int] as int, s[cell_b as int] as int));
                    assert(old(self).domains()[greater as int].contains(s[greater as int]));
                    assert(sorted(old(self).domains()[greater as int]));
                    lemma_max_of(old(self).domains()[greater as int], s[greater as int]);
                    assert forall|i: int| 0 <= i < n * n implies #[trigger] self.domains()[i].contains(s[i]) by {
                        assert(old(self).domains()[i].contains(s[i]));
                    }
                }
            }
        }
    }

    /// Narrows the domain of `lesser` for a constraint `greater > lesser`.
    fn update_mvr(&mut self, greater: usize, lesser: usize)
        requires
            old(self).wf(),
            greater < old(self).dim() * old(self).dim(),
            lesser < old(self).dim() * old(self).dim(),
        ensures
            final(self).wf(),
            final(self).dim() == old(self).dim(),
            final(self).grid() == old(self).grid(),
            final(self).attempts() == old(self).attempts(),
            final(self).constraints() == old(self).constraints(),
            final(self).domains() == old(self).domains().update(lesser as int, final(self).domains()[lesser as int]),
            forall|x: u32| #[trigger] final(self).domains()[lesser as int].contains(x)
                <==> old(self).domains()[lesser as int].contains(x) && x < max_of(old(self).domains()[greater as int]),
    {
        self.mvr.prune(greater, lesser);
    }

    /// The cells that share a column with `(row, col)`, then those that share its row.
    fn blocking_indexes(&self, row: usize, col: usize) -> (r: Vec<usize>)
        requires
            self.wf(),
            row < self.dim(),
            col < self.dim(),
        ensures
            forall|k: int| 0 <= k < r@.len() ==> neighbors(self.dim(), index(self.dim(), row as int, col as int), #[trigger] r@[k] as int),
            forall|j: usize| neighbors(self.dim(), index(self.dim(), row as int, col as int), j as int) ==> #[trigger] r@.contains(j),
            r@.len() == 2 * (self.dim() - 1),
            forall|k: int| 0 <= k < self.dim() - 1 ==> #[trigger] r@[k] == index(self.dim(), skip(k, row as int), col as int),
            forall|k: int| 0 <= k < self.dim() - 1 ==> #[trigger] r@[self.dim() - 1 + k] == index(self.dim(), row as int, skip(k, col as int)),
            r@.no_duplicates(),
    {
        let n = self.rows;
        let ghost x = index(n as nat, row as int, col as int);
        proof {
            lemma_index_coords(n as nat, row as int, col as int);
        }
        let mut indexes: Vec<usize> = Vec::new();
        let mut r: usize = 0;
        while r < n
            invariant
                self.wf(),
                n == self.dim(),
                row < n,
                col < n,
                x == index(n as nat, row as int, col as int),
                x / (n as int) == row,
                x % (n as int) == col,
                r <= n,
                forall|k: int| 0 <= k < indexes@.len() ==> neighbors(n as nat, x, #[trigger] indexes@[k] as int),
                forall|j: usize| neighbors(n as nat, x, j as int) && (j as int) % (n as int) == col && (j as int) / (n as int) < r
                    ==> #[trigger] indexes@.contains(j),
                indexes@.len() == if r > row { r - 1 } else { r as int },
                forall|k: int| 0 <= k < indexes@.len() ==> #[trigger] indexes@[k] == index(n as nat, skip(k, row as int), col as int),
            decreases n - r,
        {
            if r != row {
                proof {
                    lemma_index_coords(n as nat, r as int, col as int);
                }
                let v = col + r * n;
                let ghost before = indexes@;
                indexes.push(v);
                proof {
                    assert(indexes@[before.len() as int] == v);
                    assert forall|j: usize| neighbors(n as nat, x, j as int) && (j as int) % (n as int) == col && (j as int) / (n as int) < r + 1
                        implies #[trigger] indexes@.contains(j) by {
                        if (j as int) / (n as int) < r {
                            assert(before.contains(j));
                            let k = choose|k: int| 0 <= k < before.len() && before[k] == j;
                            assert(indexes@[k] == before[k]);
                        } else {
                            lemma_coords_index(n as nat, j as int);
                        }
                    }
                }
            } else {
                proof {
                    assert forall|j: usize| neighbors(n as nat, x, j as int) && (j as int) % (n as int) == col && (j as int) / (n as int) < r + 1
                        implies #[trigger] indexes@.contains(j) by {
                        if (j as int) / (n as int) == r {
                            lemma_coords_index(n as nat, j as int);
                            lemma_coords_index(n as nat, x);
                        }
                    }
                }
            }
            r = r + 1;
        }
        proof {
            assert forall|j: usize| neighbors(n as nat, x, j as int) && (j as int) % (n as int) == col
                implies #[trigger] indexes@.contains(j) by {
                lemma_coords_index(n as nat, j as int);
            }
        }
        let mut c: usize = 0;
        while c < n
            invariant
                self.wf(),
                n == self.dim(),
                row < n,
                col < n,
                x == index(n as nat, row as int, col as int),
                x / (n as int) == row,
                x % (n as int) == col,
                c <= n,
                forall|k: int| 0 <= k < indexes@.len() ==> neighbors(n as nat, x, #[trigger] indexes@[k] as int),
                forall|j: usize| neighbors(n as nat, x, j as int) && (j as int) % (n as int) == col
                    ==> #[trigger] indexes@.contains(j),
                forall|j: usize| neighbors(n as nat, x, j as int) && (j as int) / (n as int) == row && (j as int) % (n as int) < c
                    ==> #[trigger] indexes@.contains(j),
                indexes@.len() == n - 1 + if c > col { c - 1 } else { c as int },
                forall|k: int| 0 <= k < n - 1 ==> #[trigger] indexes@[k] == index(n as nat, skip(k, row as int), col as int),
                forall|k: int| 0 <= k < indexes@.len() - (n - 1) ==> #[trigger] indexes@[n - 1 + k] == index(n as nat, row as int, skip(k, col as int)),
            decreases n - c,
        {
            if c != col {
                proof {
                    lemma_index_coords(n as nat, row as int, c as int);
                }
                let v = c + row * n;
                let ghost before = indexes@;
                indexes.push(v);
                proof {
                    assert(indexes@[before.len() as int] == v);
                    assert forall|j: usize| before.contains(j) implies #[trigger] indexes@.contains(j) by {
                        let k = choose|k: int| 0 <= k < before.len() && before[k] == j;
                        assert(indexes@[k] == before[k]);
                    }
                    assert forall|j: usize| neighbors(n as nat, x, j as int) && (j as int) / (n as int) == row && (j as int) % (n as int) < c + 1
                        implies #[trigger] indexes@.contains(j) by {
                        if (j as int) % (n as int) < c {
                            assert(before.contains(j));
                        } else {
                            lemma_coords_index(n as nat, j as int);
                        }
                    }
                    assert forall|j: usize| neighbors(n as nat, x, j as int) && (j as int) % (n as int) == col
                        implies #[trigger] indexes@.contains(j) by {
                        assert(before.contains(j));
                    }
                }
            } else {
                proof {
                    assert forall|j: usize| neighbors(n as nat, x, j as int) && (j as int) / (n as int) == row && (j as int) % (n as int) < c + 1
                        implies #[trigger] indexes@.contains(j) by {
                        if (j as int) % (n as int) == c {
                            lemma_coords_index(n as nat, j as int);
                            lemma_coords_index(n as nat, x);
                        }
                    }
                }
            }
            c = c + 1;
        }
        proof {
            assert forall|j: usize| neighbors(n as nat, x, j as int) implies #[trigger] indexes@.contains(j) by {
                lemma_coords_index(n as nat, j as int);
                if (j as int) % (n as int) != col {
                    assert((j as int) / (n as int) == row);
                }
            }
            let m = n - 1;
            assert forall|p: int, q: int| 0 <= p < q < indexes@.len() implies indexes@[p] != indexes@[q] by {
                if q < m {
                    lemma_index_coords(n as nat, skip(p, row as int), col as int);
                    lemma_index_coords(n as nat, skip(q, row as int), col as int);
                } else if p < m {
                    lemma_index_coords(n as nat, skip(p, row as int), col as int);
                    assert(indexes@[q] == indexes@[m + (q - m)]);
                    lemma_index_coords(n as nat, row as int, skip(q - m, col as int));
                } else {
                    assert(indexes@[p] == indexes@[m + (p - m)]);
                    assert(indexes@[q] == indexes@[m + (q - m)]);
                    lemma_index_coords(n as nat, row as int, skip(p - m, col as int));
                    lemma_index_coords(n as nat, row as int, skip(q - m, col as int));
                }
            }
        }
        indexes
    }

    /// The next empty cell, as row and column, by `policy`; `None` when the grid is full.
    fn next_index(&self, policy: Policy) -> (r: Option<(usize, usize)>)
        requires
            self.wf(),
        ensures
            r is None <==> is_full(self.grid()),
            r matches Some((row, col)) ==> row < self.dim() && col < self.dim()
                && picks(policy, self.grid(), self.domains(), index(self.dim(), row as int, col as int)),
    {
        let n = self.rows;
        let cells = self.data.len();
        let mut best: Option<usize> = None;
        let mut i: usize = 0;
        while i < cells
            invariant
                self.wf(),
                n == self.dim(),
                cells == self.grid().len(),
                i <= cells,
                best is None ==> forall|j: int| 0 <= j < i ==> #[trigger] self.grid()[j] != 0,
                best matches Some(b) ==> b < i && picks(policy, self.grid().subrange(0, i as int), self.domains(), b as int),
                policy == Policy::Naive && best is Some ==> i == cells,
            decreases cells - i,
        {
            if self.data[i] == 0 {
                match best {
                    None => {
                        best = Some(i);
                    },
                    Some(b) => {
                        if self.mvr.size_of(i) < self.mvr.size_of(b) {
                            best = Some(i);
                        }
                    },
                }
                if policy == Policy::Naive {
                    i = cells;
                } else {
                    i = i + 1;
                }
            } else {
                i = i + 1;
            }
            proof {
                let g = self.grid();
                assert forall|k: int| 0 <= k < i implies #[trigger] g.subrange(0, i as int)[k] == g[k] by {}
            }
        }
        match best {
            None => None,
            Some(b) => {
                proof {
                    assert(self.grid().subrange(0, cells as int) =~= self.grid());
                    lemma_coords_index(n as nat, b as int);
                }
                Some((b / n, b % n))
            },
        }
    }

    /// Whether `num` may go at `(r, c)`: it repeats no value of `blocking_indexes_vec`,
    /// and meets every registered constraint on the cell whose other cell is filled.
    fn can_put_num(&self, r: usize, c: usize, num: u32, blocking_indexes_vec: &Vec<usize>) -> (ok: bool)
        requires
            self.wf(),
            r < self.dim(),
            c < self.dim(),
            forall|k: int| 0 <= k < blocking_indexes_vec@.len() ==> #[trigger] blocking_indexes_vec@[k] < self.dim() * self.dim(),
        ensures
            ok == (unique_at(self.grid(), blocking_indexes_vec@, num)
                && orders_at(self.constraints(), self.grid(), index(self.dim(), r as int, c as int), num)),
    {
        proof {
            lemma_index_coords(self.dim(), r as int, c as int);
        }
        let x = c + r * self.cols;
        let mut k: usize = 0;
        while k < blocking_indexes_vec.len()
            invariant
                self.wf(),
                k <= blocking_indexes_vec@.len(),
                forall|k: int| 0 <= k < blocking_indexes_vec@.len() ==> #[trigger] blocking_indexes_vec@[k] < self.dim() * self.dim(),
                forall|j: int| 0 <= j < k ==> self.grid()[#[trigger] blocking_indexes_vec@[j] as int] != num,
            decreases blocking_indexes_vec@.len() - k,
        {
            if self.data[blocking_indexes_vec[k]] == num {
                proof {
                    assert(self.grid()[blocking_indexes_vec@[k as int] as int] == num);
                }
                return false;
            }
            k = k + 1;
        }
        let list = self.cell_restriction.partners(x);
        let mut m: usize = 0;
        while m < list.len()
            invariant
                self.wf(),
                x == index(self.dim(), r as int, c as int),
                x < self.dim() * self.dim(),
                unique_at(self.grid(), blocking_indexes_vec@, num),
                list@ == entries_of(self.constraints(), x),
                forall|j: int| 0 <= j < list@.len() ==> (#[trigger] list@[j]).0 < self.dim() * self.dim(),
                m <= list@.len(),
                forall|j: int| 0 <= j < m ==> entry_ok(self.grid(), x as int, num, #[trigger] list@[j]),
            decreases list@.len() - m,
        {
            let (y, rel) = list[m];
            let w = if y == x { num } else { self.data[y] };
            if w != 0 && !rel.allows(num, w) {
                proof {
                    let xi = index(self.dim(), r as int, c as int);
                    assert(xi as usize == x);
                    assert(entries_of(self.constraints(), xi as usize)[m as int] == list@[m as int]);
                    assert(!entry_ok(self.grid(), xi, num, list@[m as int]));
                }
                return false;
            }
            m = m + 1;
        }
        true
    }

    /// Whether `value` leaves every empty cell of `blocking_indexes_vec` a candidate:
    /// false where such a cell's domain is exactly `{value}`.
    fn forward_check(&self, value: u32, blocking_indexes_vec: &Vec<usize>) -> (ok: bool)
        requires
            self.wf(),
            forall|k: int| 0 <= k < blocking_indexes_vec@.len() ==> #[trigger] blocking_indexes_vec@[k] < self.dim() * self.dim(),
        ensures
            ok == forall|k: int| 0 <= k < blocking_indexes_vec@.len() ==> !(
                self.grid()[#[trigger] blocking_indexes_vec@[k] as int] == 0
                && self.domains()[blocking_indexes_vec@[k] as int] == seq![value]),
    {
        let mut k: usize = 0;
        while k < blocking_indexes_vec.len()
            invariant
                self.wf(),
                k <= blocking_indexes_vec@.len(),
                forall|k: int| 0 <= k < blocking_indexes_vec@.len() ==> #[trigger] blocking_indexes_vec@[k] < self.dim() * self.dim(),
                forall|j: int| 0 <= j < k ==> !(
                    self.grid()[#[trigger] blocking_indexes_vec@[j] as int] == 0
                    && self.domains()[blocking_indexes_vec@[j] as int] == seq![value]),
            decreases blocking_indexes_vec@.len() - k,
        {
            let y = blocking_indexes_vec[k];
            if self.data[y] == 0 && self.mvr.size_of(y) == 1 && self.mvr.domain_of(y)[0] == value {
                proof {
                    assert(self.domains()[y as int] =~= seq![value]);
                }
                return false;
            }
            k = k + 1;
        }
        true
    }

    /// Takes `v` out of the domains of the empty cells of `blocking`; returns, in order,
    /// the cells whose domain held it.
    fn propagate(&mut self, v: u32, blocking: &Vec<usize>) -> (removed: Vec<usize>)
        requires
            old(self).wf(),
            forall|k: int| 0 <= k < blocking@.len() ==> #[trigger] blocking@[k] < old(self).dim() * old(self).dim(),
        ensures
            final(self).wf(),
            final(self).dim() == old(self).dim(),
            final(self).grid() == old(self).grid(),
            final(self).constraints() == old(self).constraints(),
            final(self).attempts() == old(self).attempts(),
            narrowed(old(self).domains(), final(self).domains(), removed@, v),
            forall|m: int| 0 <= m < removed@.len() ==> #[trigger] blocking@.contains(removed@[m]),
    {
        let ghost d0 = self.domains();
        let mut removed: Vec<usize> = Vec::new();
        let mut b: usize = 0;
        while b < blocking.len()
            invariant
                self.wf(),
                self.dim() == old(self).dim(),
                self.grid() == old(self).grid(),
                self.constraints() == old(self).constraints(),
                self.attempts() == old(self).attempts(),
                d0 == old(self).domains(),
                d0.len() == self.dim() * self.dim(),
                forall|k: int| 0 <= k < blocking@.len() ==> #[trigger] blocking@[k] < old(self).dim() * old(self).dim(),
                b <= blocking@.len(),
                narrowed(d0, self.domains(), removed@, v),
                forall|m: int| 0 <= m < removed@.len() ==> #[trigger] blocking@.contains(removed@[m]),
            decreases blocking@.len() - b,
        {
            let y = blocking[b];
            if self.data[y] == 0 {
                let ghost before = self.domains();
                let ghost before_removed = removed@;
                if self.mvr.remove(y, v) {
                    proof {
                        assert(!before_removed.contains(y)) by {
                            if before_removed.contains(y) {
                                assert(!before[y as int].contains(v));
                            }
                        }
                        assert(d0[y as int] == before[y as int]);
                    }
                    removed.push(y);
                    proof {
                        assert(blocking@.contains(y)) by {
                            assert(blocking@[b as int] == y);
                        }
                        assert(removed@ == before_removed.push(y));
                        assert forall|i: usize| i < d0.len() && removed@.contains(i) implies (#[trigger] before_removed.contains(i) || i == y) by {
                            let m = choose|m: int| 0 <= m < removed@.len() && removed@[m] == i;
                            if m < before_removed.len() {
                                assert(before_removed[m] == i);
                            }
                        }
                        assert forall|i: usize| before_removed.contains(i) implies #[trigger] removed@.contains(i) by {
                            let m = choose|m: int| 0 <= m < before_removed.len() && before_removed[m] == i;
                            assert(removed@[m] == i);
                        }
                        assert(removed@[before_removed.len() as int] == y);
                        let d = self.domains();
                        assert(removed@.no_duplicates()) by {
                            assert forall|p: int, q: int| 0 <= p < q < removed@.len() implies removed@[p] != removed@[q] by {
                                if q == before_removed.len() {
                                    assert(before_removed.contains(removed@[p])) by {
                                        assert(before_removed[p] == removed@[p]);
                                    }
                                }
                            }
                        }
                        assert forall|i: usize| i < d0.len() && !removed@.contains(i) implies #[trigger] d[i as int] == d0[i as int] by {
                            assert(i != y);
                            assert(!before_removed.contains(i));
                        }
                        assert forall|i: usize| i < d0.len() && removed@.contains(i) implies {
                            &&& d0[i as int].contains(v)
                            &&& forall|z: u32| #[trigger] d[i as int].contains(z) <==> d0[i as int].contains(z) && z != v
                        } by {
                            if i != y {
                                assert(before_removed.contains(i));
                                assert(d[i as int] == before[i as int]);
                            }
                        }
                        assert forall|m: int| 0 <= m < removed@.len() implies #[trigger] removed@[m] < d0.len() by {
                            if m < before_removed.len() {
                                assert(before_removed[m] == removed@[m]);
                            }
                        }
                    }
                } else {
                    proof {
                        lemma_sorted_unique(self.domains()[y as int], before[y as int]);
                        assert(self.domains() =~= before);
                    }
                }
            }
            b = b + 1;
        }
        removed
    }

    /// Puts `v` back into the domain of each cell of `removed`, last first, which
    /// returns the domains to `target`.
    fn undo(&mut self, v: u32, removed: Vec<usize>, Ghost(target): Ghost<Seq<Seq<u32>>>)
        requires
            old(self).wf(),
            narrowed(target, old(self).domains(), removed@, v),
            forall|i: int| 0 <= i < target.len() ==> sorted(#[trigger] target[i]),
            1 <= v <= old(self).dim(),
        ensures
            final(self).wf(),
            final(self).dim() == old(self).dim(),
            final(self).grid() == old(self).grid(),
            final(self).constraints() == old(self).constraints(),
            final(self).attempts() == old(self).attempts(),
            final(self).domains() == target,
    {
        let mut removed = removed;
        while removed.len() > 0
            invariant
                self.wf(),
                self.dim() == old(self).dim(),
                self.grid() == old(self).grid(),
                self.constraints() == old(self).constraints(),
                self.attempts() == old(self).attempts(),
                narrowed(target, self.domains(), removed@, v),
                forall|i: int| 0 <= i < target.len() ==> sorted(#[trigger] target[i]),
                1 <= v <= self.dim(),
            decreases removed@.len(),
        {
            let ghost before = removed@;
            let y = removed.pop().unwrap();
            proof {
                assert(before.last() == y);
                assert(before.contains(y)) by {
                    assert(before[before.len() - 1] == y);
                }
                assert(removed@ =~= before.drop_last());
                assert(!removed@.contains(y)) by {
                    if removed@.contains(y) {
                        let m = choose|m: int| 0 <= m < removed@.len() && removed@[m] == y;
                        assert(before[m] == before[before.len() - 1]);
                    }
                }
                assert(target[y as int].contains(v));
                assert(!self.domains()[y as int].contains(v));
                let k = choose|k: int| 0 <= k < target[y as int].len() && target[y as int][k] == v;
                assert(self.mvr.wf());
            }
            let ghost mid = self.domains();
            self.mvr.restore(y, v);
            proof {
                lemma_sorted_unique(self.domains()[y as int], target[y as int]);
                assert forall|i: usize| i < target.len() && !removed@.contains(i) implies #[trigger] self.domains()[i as int] == target[i as int] by {
                    if i != y {
                        assert(!before.contains(i)) by {
                            if before.contains(i) {
                                let m = choose|m: int| 0 <= m < before.len() && before[m] == i;
                                assert(m != before.len() - 1);
                                assert(removed@[m] == i);
                            }
                        }
                    }
                }
                assert forall|i: usize| i < target.len() && removed@.contains(i) implies {
                    &&& target[i as int].contains(v)
                    &&& forall|z: u32| #[trigger] self.domains()[i as int].contains(z) <==> target[i as int].contains(z) && z != v
                } by {
                    let m = choose|m: int| 0 <= m < removed@.len() && removed@[m] == i;
                    assert(before[m] == i);
                    assert(before.contains(i));
                    assert(self.domains()[i as int] == mid[i as int]);
                }
                assert forall|m: int| 0 <= m < removed@.len() implies #[trigger] removed@[m] < target.len() by {
                    assert(before[m] == removed@[m]);
                }
            }
        }
        proof {
            assert(self.domains() =~= target) by {
                assert forall|i: int| 0 <= i < target.len() implies #[trigger] self.domains()[i] == target[i] by {
                    assert(!removed@.contains(i as usize));
                }
            }
        }
    }

    /// Searches for a completion that fills the empty cell `(r, c)` and every empty cell
    /// after it; on failure leaves grid and domains as it found them.
    fn solve_cell(&mut self, r: usize, c: usize, policy: Policy, ceiling: u64) -> (outcome: Search)
        requires
            old(self).wf(),
            r < old(self).dim(),
            c < old(self).dim(),
            old(self).grid()[index(old(self).dim(), r as int, c as int)] == 0,
            prefilled_ok(old(self).dim(), old(self).constraints(), old(self).grid()),
            old(self).attempts() <= ceiling,
        ensures
            final(self).wf(),
            final(self).dim() == old(self).dim(),
            final(self).constraints() == old(self).constraints(),
            old(self).attempts() <= final(self).attempts() <= ceiling,
            final(self).attempts() <= old(self).attempts() + search_bound(old(self).dim(), empty_count(old(self).grid())),
            old(self).attempts() + search_bound(old(self).dim(), empty_count(old(self).grid())) <= ceiling
                ==> outcome != Search::EffortExceeded,
            old(self).attempts() == ceiling ==> outcome == Search::EffortExceeded,
            outcome == Search::Solved ==> {
                &&& is_full(final(self).grid())
                &&& prefilled_ok(final(self).dim(), final(self).constraints(), final(self).grid())
                &&& extends(final(self).grid(), old(self).grid())
                &&& old(self).attempts() + empty_count(old(self).grid()) <= final(self).attempts()
            },
            outcome == Search::Unsolvable ==> {
                &&& final(self).grid() == old(self).grid()
                &&& final(self).domains() == old(self).domains()
                &&& (covers_empty(old(self).dim(), old(self).constraints(), old(self).grid(), old(self).domains())
                    ==> !solvable(old(self).dim(), old(self).constraints(), old(self).grid()))
            },
            outcome == Search::EffortExceeded ==> final(self).attempts() == ceiling,
        decreases empty_count(old(self).grid()),
    {
        let n = self.rows;
        proof {
            lemma_index_coords(self.dim(), r as int, c as int);
            lemma_empty_count_fill(self.grid(), index(self.dim(), r as int, c as int), 1);
            lemma_search_bound_step(self.dim(), empty_count(self.grid()), 0);
        }
        if self.attributions >= ceiling {
            return Search::EffortExceeded;
        }
        let ghost nn = self.dim();
        let ghost g0 = self.grid();
        let ghost d0 = self.domains();
        let ghost cons = self.constraints();
        let ghost a0 = self.attempts();
        proof {
            lemma_index_coords(nn, r as int, c as int);
        }
        let x = c + r * n;
        let candidates = match policy {
            Policy::MinimumRemaining => copy_values(self.mvr.domain_of(x)),
            Policy::Naive => values_up_to(n),
        };
        proof {
            assert forall|s: Seq<u32>| is_solution(nn, cons, s) && extends(s, g0) && covers_empty(nn, cons, g0, d0)
                implies #[trigger] candidates@.contains(s[x as int]) by {
                if policy == Policy::Naive {
                    lemma_solution_value(nn, cons, s, x as int);
                    assert(candidates@[s[x as int] - 1] == s[x as int]);
                } else {
                    assert(d0[x as int].contains(s[x as int]));
                }
            }
            assert forall|j: int| 0 <= j < candidates@.len() implies 1 <= #[trigger] candidates@[j] <= n by {
                if policy == Policy::MinimumRemaining {
                    assert(self.mvr.wf());
                    assert(1 <= d0[x as int][j] <= self.mvr.dim());
                }
            }
        }
        proof {
            assert forall|i: int| 0 <= i < d0.len() implies sorted(#[trigger] d0[i]) by {
                assert(self.mvr.wf());
            }
            if policy == Policy::MinimumRemaining {
                lemma_sorted_len(candidates@, n as int);
            }
            lemma_empty_count_fill(g0, x as int, 1);
        }
        let ghost e = empty_count(g0);
        let ghost b1 = search_bound(nn, (e - 1) as nat);
        let blocking = self.blocking_indexes(r, c);
        let mut k: usize = 0;
        while k < candidates.len()
            invariant
                self.wf(),
                nn == old(self).dim(),
                cons == old(self).constraints(),
                g0 == old(self).grid(),
                d0 == old(self).domains(),
                a0 == old(self).attempts(),
                forall|i: int| 0 <= i < d0.len() ==> sorted(#[trigger] d0[i]),
                self.dim() == nn,
                n == nn,
                r < n,
                c < n,
                x == index(nn, r as int, c as int),
                x < nn * nn,
                self.constraints() == cons,
                self.grid() == g0,
                self.domains() == d0,
                g0[x as int] == 0,
                prefilled_ok(nn, cons, g0),
                a0 <= self.attempts() <= ceiling,
                e == empty_count(g0),
                e >= 1,
                b1 == search_bound(nn, (e - 1) as nat),
                candidates@.len() <= n,
                self.attempts() <= a0 + k * (1 + b1),
                forall|k: int| 0 <= k < blocking@.len() ==> neighbors(nn, x as int, #[trigger] blocking@[k] as int),
                forall|j: usize| neighbors(nn, x as int, j as int) ==> #[trigger] blocking@.contains(j),
                forall|j: int| 0 <= j < candidates@.len() ==> 1 <= #[trigger] candidates@[j] <= n,
                forall|s: Seq<u32>| is_solution(nn, cons, s) && extends(s, g0) && covers_empty(nn, cons, g0, d0)
                    ==> #[trigger] candidates@.contains(s[x as int]),
                k <= candidates@.len(),
                forall|j: int| 0 <= j < k && covers_empty(nn, cons, g0, d0)
                    ==> !solvable(nn, cons, g0.update(x as int, #[trigger] candidates@[j])),
            decreases candidates@.len() - k,
        {
            let v = candidates[k];
            let admitted = self.can_put_num(r, c, v, &blocking);
            let spared = admitted && self.forward_check(v, &blocking);
            if !spared {
                proof {
                    if covers_empty(nn, cons, g0, d0) {
                        lemma_rejected_candidate(nn, cons, g0, d0, x as int, v, blocking@);
                    }
                }
            } else {
                proof {
                    lemma_search_bound_step(nn, e, k as nat);
                }
                if self.attributions >= ceiling {
                    return Search::EffortExceeded;
                }
                self.set(r, c, v);
                let ghost g1 = self.grid();
                let ghost a1 = self.attempts();
                proof {
                    assert(cells_in_board(nn, cons));
                    lemma_assign_keeps_ok(nn, cons, g0, x as int, v, blocking@);
                    lemma_empty_count_fill(g0, x as int, v);
                }
                let removed = if policy == Policy::MinimumRemaining {
                    self.propagate(v, &blocking)
                } else {
                    Vec::new()
                };
                let ghost d1 = self.domains();
                proof {
                    if policy == Policy::Naive {
                        assert(d1 == d0);
                        assert(narrowed(d0, d1, removed@, v));
                    }
                    assert forall|m: int| 0 <= m < removed@.len() implies neighbors(nn, x as int, #[trigger] removed@[m] as int) by {
                        assert(blocking@.contains(removed@[m]));
                    }
                    if covers_empty(nn, cons, g0, d0) {
                        lemma_cover_after_assign(nn, cons, g0, d0, d1, x as int, v, removed@);
                    }
                }
                match self.next_index(policy) {
                    None => {
                        proof {
                            lemma_empty_count_full(g1);
                            assert(extends(g1, g0)) by {
                                assert forall|i: int| 0 <= i < g0.len() && g0[i] != 0 implies #[trigger] g1[i] == g0[i] by {}
                            }
                        }
                        return Search::Solved;
                    },
                    Some((next_r, next_c)) => {
                        let found = self.solve_cell(next_r, next_c, policy, ceiling);
                        match found {
                            Search::Solved => {
                                proof {
                                    let g2 = self.grid();
                                    assert(extends(g2, g0)) by {
                                        assert forall|i: int| 0 <= i < g0.len() && g0[i] != 0 implies #[trigger] g2[i] == g0[i] by {
                                            assert(g1[i] == g0[i]);
                                        }
                                    }
                                }
                                return Search::Solved;
                            },
                            Search::EffortExceeded => {
                                return Search::EffortExceeded;
                            },
                            Search::Unsolvable => {},
                        }
                    },
                }
                self.undo(v, removed, Ghost(d0));
                self.set(r, c, 0);
                proof {
                    assert(self.grid() =~= g0);
                }
            }
            proof {
                assert((k + 1) * (1 + b1) == k * (1 + b1) + (1 + b1)) by (nonlinear_arith);
            }
            k = k + 1;
        }
        proof {
            if candidates@.len() > 0 {
                lemma_search_bound_step(nn, e, (candidates@.len() - 1) as nat);
            }
            if covers_empty(nn, cons, g0, d0) && solvable(nn, cons, g0) {
                let s = choose|s: Seq<u32>| is_solution(nn, cons, s) && extends(s, g0);
                assert(candidates@.contains(s[x as int]));
                let j = choose|j: int| 0 <= j < candidates@.len() && candidates@[j] == s[x as int];
                assert(!solvable(nn, cons, g0.update(x as int, candidates@[j])));
                assert(extends(s, g0.update(x as int, candidates@[j])));
            }
        }
        Search::Unsolvable
    }

    /// Solves the puzzle as it stands: checks the given cells, then searches by
    /// `policy`, making at most `ceiling` assignments. The count of assignments starts
    /// from zero.
    pub fn solve(&mut self, policy: Policy, ceiling: u64) -> (outcome: Outcome)
        requires
            old(self).wf(),
        ensures
            final(self).wf(),
            final(self).dim() == old(self).dim(),
            final(self).constraints() == old(self).constraints(),
            final(self).attempts() <= ceiling,
            final(self).attempts() <= search_bound(old(self).dim(), empty_count(old(self).grid())),
            search_bound(old(self).dim(), empty_count(old(self).grid())) <= ceiling ==> !(outcome is EffortExceeded),
            ceiling == 0 && prefilled_ok(old(self).dim(), old(self).constraints(), old(self).grid())
                && !is_full(old(self).grid()) ==> outcome is EffortExceeded,
            outcome matches Outcome::Solved(g) ==> {
                &&& g@ == final(self).grid()
                &&& solved_output(old(self).dim(), old(self).constraints(), old(self).grid(), g@)
                &&& empty_count(old(self).grid()) <= final(self).attempts()
                &&& (old(self).domains_sound() ==> forall|i: int| 0 <= i < old(self).dim() * old(self).dim()
                    ==> #[trigger] old(self).domains()[i].contains(g@[i]))
            },
            outcome is Unsolvable ==> {
                &&& final(self).grid() == old(self).grid()
                &&& final(self).domains() == old(self).domains()
                &&& (old(self).domains_sound() ==> !solvable(old(self).dim(), old(self).constraints(), old(self).grid()))
            },
            outcome is EffortExceeded ==> {
                &&& final(self).attempts() == ceiling
                &&& prefilled_ok(old(self).dim(), old(self).constraints(), old(self).grid())
                &&& !is_full(old(self).grid())
            },
            !prefilled_ok(old(self).dim(), old(self).constraints(), old(self).grid()) ==> outcome is Unsolvable,
            is_full(old(self).grid()) && prefilled_ok(old(self).dim(), old(self).constraints(), old(self).grid())
                ==> outcome is Solved,
    {
        let ghost nn = self.dim();
        let ghost g0 = self.grid();
        let ghost cons = self.constraints();
        let ghost sound = self.domains_sound();
        let ghost d0 = self.domains();
        self.attributions = 0;
        if !self.prefilled_consistent() {
            proof {
                if solvable(nn, cons, g0) {
                    crate::grid::lemma_solvable_prefilled_ok(nn, cons, g0);
                }
            }
            return Outcome::Unsolvable;
        }
        match self.next_index(policy) {
            None => {
                proof {
                    lemma_full_ok_is_solution(nn, cons, g0);
                    lemma_empty_count_full(g0);
                    assert(extends(g0, g0));
                }
                Outcome::Solved(copy_values(&self.data))
            },
            Some((r, c)) => {
                proof {
                    lemma_empty_count_full(g0);
                }
                match self.solve_cell(r, c, policy, ceiling) {
                    Search::Solved => {
                        proof {
                            lemma_full_ok_is_solution(nn, cons, self.grid());
                        }
                        Outcome::Solved(copy_values(&self.data))
                    },
                    Search::Unsolvable => {
                        proof {
                            if sound {
                                assert(covers_empty(nn, cons, g0, d0)) by {
                                    assert forall|s: Seq<u32>| is_solution(nn, cons, s) && extends(s, g0) implies
                                        forall|i: int| 0 <= i < g0.len() && g0[i] == 0 ==> #[trigger] d0[i].contains(s[i]) by {
                                        assert forall|i: int| 0 <= i < g0.len() && g0[i] == 0 implies #[trigger] d0[i].contains(s[i]) by {
                                            assert(old(self).domains()[i].contains(s[i]));
                                        }
                                    }
                                }
                            }
                        }
                        Outcome::Unsolvable
                    },
                    Search::EffortExceeded => Outcome::EffortExceeded,
                }
            },
        }
    }

    /// Whether the grid as it stands repeats no value within a row or column and meets
    /// every registered constraint between two filled cells.
    fn prefilled_consistent(&self) -> (ok: bool)
        requires
            self.wf(),
        ensures
            ok == prefilled_ok(self.dim(), self.constraints(), self.grid()),
    {
        let n = self.rows;
        let cells = self.data.len();
        let ghost g = self.grid();
        let mut i: usize = 0;
        while i < cells
            invariant
                self.wf(),
                n == self.dim(),
                g == self.grid(),
                cells == n * n,
                i <= cells,
                forall|a: int, b: int| 0 <= a < i && 0 <= b < n * n && a != b && #[trigger] aligned(n as nat, a, b)
                    && g[a] != 0 && g[b] != 0 ==> #[trigger] g[a] != g[b],
            decreases cells - i,
        {
            if self.data[i] != 0 {
                proof {
                    lemma_coords_index(n as nat, i as int);
                }
                let blocking = self.blocking_indexes(i / n, i % n);
                let mut k: usize = 0;
                while k < blocking.len()
                    invariant
                        self.wf(),
                        n == self.dim(),
                        g == self.grid(),
                        cells == n * n,
                        i < cells,
                        forall|k: int| 0 <= k < blocking@.len() ==> neighbors(n as nat, i as int, #[trigger] blocking@[k] as int),
                        k <= blocking@.len(),
                        forall|j: int| 0 <= j < k && g[#[trigger] blocking@[j] as int] != 0 ==> g[i as int] != g[blocking@[j] as int],
                    decreases blocking@.len() - k,
                {
                    let y = blocking[k];
                    if self.data[y] != 0 && self.data[y] == self.data[i] {
                        proof {
                            assert(neighbors(n as nat, i as int, y as int));
                        }
                        return false;
                    }
                    k = k + 1;
                }
                proof {
                    assert forall|b: int| 0 <= b < n * n && i != b && #[trigger] aligned(n as nat, i as int, b)
                        && g[i as int] != 0 && g[b] != 0 implies g[i as int] != g[b] by {
                        assert(neighbors(n as nat, i as int, b));
                        assert(blocking@.contains(b as usize));
                    }
                }
            }
            i = i + 1;
        }
        let count = self.cell_restriction.len();
        let mut k: usize = 0;
        while k < count
            invariant
                self.wf(),
                n == self.dim(),
                g == self.grid(),
                count == self.constraints().len(),
                k <= count,
                forall|a: int, b: int| 0 <= a < n * n && 0 <= b < n * n && a != b && #[trigger] aligned(n as nat, a, b)
                    && g[a] != 0 && g[b] != 0 ==> #[trigger] g[a] != g[b],
                forall|j: int| 0 <= j < k && g[(#[trigger] self.constraints()[j]).cell_a as int] != 0
                    && g[self.constraints()[j].cell_b as int] != 0
                    ==> holds(self.constraints()[j].relation, g[self.constraints()[j].cell_a as int] as int, g[self.constraints()[j].cell_b as int] as int),
            decreases count - k,
        {
            let con = self.cell_restriction.constraint(k);
            let a = self.data[con.cell_a];
            let b = self.data[con.cell_b];
            if a != 0 && b != 0 && !con.relation.allows(a, b) {
                return false;
            }
            k = k + 1;
        }
        true
    }
}

/// `d` is `d0` with `v` taken out of the domains of the cells in `removed`, each of
/// which held it.
pub open spec fn narrowed(d0: Seq<Seq<u32>>, d: Seq<Seq<u32>>, removed: Seq<usize>, v: u32) -> bool {
    &&& d.len() == d0.len()
    &&& removed.no_duplicates()
    &&& forall|m: int| 0 <= m < removed.len() ==> #[trigger] removed[m] < d0.len()
    &&& forall|i: usize| i < d0.len() && !removed.contains(i) ==> #[trigger] d[i as int] == d0[i as int]
    &&& forall|i: usize| i < d0.len() && removed.contains(i) ==> {
        &&& d0[i as int].contains(v)
        &&& forall|y: u32| #[trigger] d[i as int].contains(y) <==> d0[i as int].contains(y) && y != v
    }
}

/// A candidate that fails the admission checks at `x` has no solution behind it.
proof fn lemma_rejected_candidate(
    n: nat,
    cons: Seq<Constraint>,
    g: Seq<u32>,
    d: Seq<Seq<u32>>,
    x: int,
    v: u32,
    blocking: Seq<usize>,
)
    requires
        n * n <= usize::MAX,
        g.len() == n * n,
        0 <= x < n * n,
        g[x] == 0,
        v != 0,
        forall|k: int| 0 <= k < blocking.len() ==> neighbors(n, x, #[trigger] blocking[k] as int),
        covers_empty(n, cons, g, d),
        !(unique_at(g, blocking, v) && orders_at(cons, g, x, v))
            || !(forall|k: int| 0 <= k < blocking.len() ==> !(g[#[trigger] blocking[k] as int] == 0 && d[blocking[k] as int] == seq![v])),
    ensures
        !solvable(n, cons, g.update(x, v)),
{
    let g1 = g.update(x, v);
    if solvable(n, cons, g1) {
        let s = choose|s: Seq<u32>| is_solution(n, cons, s) && extends(s, g1);
        assert(g1[x] == v);
        assert(s[x] == v);
        assert(extends(s, g)) by {
            assert forall|i: int| 0 <= i < g.len() && g[i] != 0 implies #[trigger] s[i] == g[i] by {
                assert(g1[i] == g[i]);
            }
        }
        if !unique_at(g, blocking, v) {
            let k = choose|k: int| 0 <= k < blocking.len() && g[#[trigger] blocking[k] as int] == v;
            let y = blocking[k] as int;
            assert(neighbors(n, x, y));
            assert(s[y] == g[y]);
            lemma_latin_distinct(n, s, y, x);
        } else if !orders_at(cons, g, x, v) {
            let xu = x as usize;
            let list = entries_of(cons, xu);
            let m = choose|m: int| 0 <= m < list.len() && !entry_ok(g, x, v, #[trigger] list[m]);
            let (y, rel) = list[m];
            lemma_entry_source(cons, xu, m);
            let k = choose|k: int| 0 <= k < cons.len() && {
                ||| ((#[trigger] cons[k]).cell_a == xu && cons[k].cell_b == y && cons[k].relation == rel)
                ||| (cons[k].cell_b == xu && cons[k].cell_a == y && flipped(cons[k].relation) == rel)
            };
            if y as int != x {
                assert(s[y as int] == g[y as int]);
            }
        } else {
            let k = choose|k: int| 0 <= k < blocking.len() && (g[#[trigger] blocking[k] as int] == 0 && d[blocking[k] as int] == seq![v]);
            let y = blocking[k] as int;
            assert(neighbors(n, x, y));
            assert(d[y].contains(s[y]));
            assert(s[y] == v);
            lemma_latin_distinct(n, s, y, x);
        }
    }
}

/// A value that passes the admission checks keeps the grid free of clashes.
proof fn lemma_assign_keeps_ok(n: nat, cons: Seq<Constraint>, g: Seq<u32>, x: int, v: u32, blocking: Seq<usize>)
    requires
        n * n <= usize::MAX,
        g.len() == n * n,
        0 <= x < n * n,
        v != 0,
        prefilled_ok(n, cons, g),
        cells_in_board(n, cons),
        forall|j: usize| neighbors(n, x, j as int) ==> #[trigger] blocking.contains(j),
        unique_at(g, blocking, v),
        orders_at(cons, g, x, v),
    ensures
        prefilled_ok(n, cons, g.update(x, v)),
{
    let g1 = g.update(x, v);
    let xu = x as usize;
    assert forall|i: int, j: int|
        0 <= i < n * n && 0 <= j < n * n && i != j && #[trigger] aligned(n, i, j) && g1[i] != 0 && g1[j] != 0
            implies g1[i] != g1[j] by {
        if i == x {
            assert(neighbors(n, x, j));
            assert(blocking.contains(j as usize));
            let k = choose|k: int| 0 <= k < blocking.len() && blocking[k] == j as usize;
        } else if j == x {
            assert(neighbors(n, x, i));
            assert(blocking.contains(i as usize));
            let k = choose|k: int| 0 <= k < blocking.len() && blocking[k] == i as usize;
        }
    }
    assert forall|k: int| 0 <= k < cons.len() && g1[(#[trigger] cons[k]).cell_a as int] != 0 && g1[cons[k].cell_b as int] != 0
        implies holds(cons[k].relation, g1[cons[k].cell_a as int] as int, g1[cons[k].cell_b as int] as int) by {
        let c = cons[k];
        let list = entries_of(cons, xu);
        lemma_entry_present(cons, xu, k);
        if c.cell_a == xu {
            let m = choose|m: int| 0 <= m < list.len() && list[m] == (c.cell_b, c.relation);
            assert(entry_ok(g, x, v, list[m]));
        } else if c.cell_b == xu {
            let m = choose|m: int| 0 <= m < list.len() && list[m] == (c.cell_a, flipped(c.relation));
            assert(entry_ok(g, x, v, list[m]));
        } else {
            assert(g1[c.cell_a as int] == g[c.cell_a as int]);
            assert(g1[c.cell_b as int] == g[c.cell_b as int]);
        }
    }
}

/// Narrowing the neighbours of a newly filled cell keeps every solution in the domains.
proof fn lemma_cover_after_assign(
    n: nat,
    cons: Seq<Constraint>,
    g: Seq<u32>,
    d0: Seq<Seq<u32>>,
    d1: Seq<Seq<u32>>,
    x: int,
    v: u32,
    removed: Seq<usize>,
)
    requires
        n * n <= usize::MAX,
        g.len() == n * n,
        d0.len() == n * n,
        0 <= x < n * n,
        g[x] == 0,
        v != 0,
        covers_empty(n, cons, g, d0),
        narrowed(d0, d1, removed, v),
        forall|m: int| 0 <= m < removed.len() ==> neighbors(n, x, #[trigger] removed[m] as int),
    ensures
        covers_empty(n, cons, g.update(x, v), d1),
{
    let g1 = g.update(x, v);
    assert forall|s: Seq<u32>| is_solution(n, cons, s) && extends(s, g1) implies
        forall|i: int| 0 <= i < g1.len() && g1[i] == 0 ==> #[trigger] d1[i].contains(s[i]) by {
        assert(extends(s, g)) by {
            assert forall|i: int| 0 <= i < g.len() && g[i] != 0 implies #[trigger] s[i] == g[i] by {
                assert(g1[i] == g[i]);
            }
        }
        assert forall|i: int| 0 <= i < g1.len() && g1[i] == 0 implies #[trigger] d1[i].contains(s[i]) by {
            assert(g1[x] == v);
            assert(i != x);
            assert(g[i] == 0);
            assert(d0[i].contains(s[i]));
            let iu = i as usize;
            assert(iu as int == i);
            if removed.contains(iu) {
                let m = choose|m: int| 0 <= m < removed.len() && removed[m] == iu;
                assert(neighbors(n, x, i));
                assert(s[x] == v);
                lemma_latin_distinct(n, s, i, x);
            } else {
                assert(d1[iu as int] == d0[iu as int]);
            }
        }
    }
}

/// A copy of `v`.
fn copy_values(v: &Vec<u32>) -> (r: Vec<u32>)
    ensures
        r@ == v@,
{
    let mut r: Vec<u32> = Vec::new();
    let mut i: usize = 0;
    while i < v.len()
        invariant
            i <= v@.len(),
            r@ == v@.subrange(0, i as int),
        decreases v@.len() - i,
    {
        r.push(v[i]);
        i = i + 1;
        assert(r@ =~= v@.subrange(0, i as int));
    }
    assert(v@.subrange(0, v@.len() as int) =~= v@);
    r
}

/// The values `1..=n` in increasing order.
fn values_up_to(n: usize) -> (r: Vec<u32>)
    requires
        n <= u32::MAX,
    ensures
        r@.len() == n,
        forall|k: int| 0 <= k < n ==> #[trigger] r@[k] == k + 1,
{
    let mut r: Vec<u32> = Vec::new();
    let mut v: usize = 0;
    while v < n
        invariant
            v <= n,
            n <= u32::MAX,
            r@.len() == v,
            forall|k: int| 0 <= k < v ==> #[trigger] r@[k] == k + 1,
        decreases n - v,
    {
        r.push((v + 1) as u32);
        v = v + 1;
    }
    r
}

/// Every value of a solution lies in `1..=n`.
proof fn lemma_solution_value(n: nat, cons: Seq<Constraint>, s: Seq<u32>, i: int)
    requires
        is_solution(n, cons, s),
        0 <= i < n * n,
    ensures
        1 <= s[i] <= n,
{
    lemma_coords_index(n, i);
    let r = i / (n as int);
    let c = i % (n as int);
    let row = crate::grid::row_of(n, s, r);
    assert(row[c] == s[i]);
}

} // verus!
