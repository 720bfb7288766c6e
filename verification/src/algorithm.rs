use crate::neighborhoods::{geometric_neighborhood, get_geometric_neighbors, views};
use crate::problem::{packing_wf, PackingView, Problem, Score};
use vstd::prelude::*;

verus! {

/// The error a search step can signal: the neighborhood filter left no
/// candidate to step to.
#[derive(Clone, Copy, Debug, PartialEq, Eq, Structural)]
pub enum SearchError {
    NoFeasibleNeighbors,
}

/// Total order the driver ranks scores by: an infeasible packing ranks below
/// every feasible one, and feasible packings rank by their box count.
pub open spec fn spec_score_val(s: Score) -> int {
    match s {
        Score::Feasible(v) => v as int,
        Score::Infeasible => -1,
    }
}

/// Index `i` is the one a local-search step selects from the neighbor models
/// `ns`: its score is minimal, and every earlier candidate scores strictly
/// worse, so the first-seen candidate wins a tie.
pub open spec fn is_selected(ns: Seq<PackingView>, i: int) -> bool {
    &&& 0 <= i < ns.len()
    &&& forall|j: int|
        0 <= j < ns.len() ==> spec_score_val(ns[i].score) <= spec_score_val(
            (#[trigger] ns[j]).score,
        )
    &&& forall|j: int|
        0 <= j < i ==> spec_score_val((#[trigger] ns[j]).score) > spec_score_val(ns[i].score)
}

/// Selection is deterministic in the neighbors' order: at most one index is
/// selected, so when two candidates share the minimum score the one appearing
/// earlier in generation order is the one taken.
pub proof fn lemma_selected_unique(ns: Seq<PackingView>, i: int, j: int)
    requires
        is_selected(ns, i),
        is_selected(ns, j),
    ensures
        i == j,
{
    if i < j {
        assert(spec_score_val(ns[i].score) > spec_score_val(ns[j].score));
        assert(spec_score_val(ns[j].score) >= spec_score_val(ns[i].score));
    }
    if j < i {
        assert(spec_score_val(ns[j].score) > spec_score_val(ns[i].score));
        assert(spec_score_val(ns[i].score) >= spec_score_val(ns[j].score));
    }
}

/// The rank the driver compares candidates by, shifted so it fits an
/// unsigned type.
fn score_rank(s: &Score) -> (r: u64)
    ensures
        r == spec_score_val(*s) + 1,
{
    match *s {
        Score::Feasible(v) => v as u64 + 1,
        Score::Infeasible => 0,
    }
}

/// Index of the first neighbor with minimum score.
#[verifier::loop_isolation(false)]
fn select_best(neighbors: &Vec<Problem>) -> (idx: usize)
    requires
        neighbors@.len() > 0,
    ensures
        is_selected(views(neighbors@), idx as int),
{
    let n = neighbors.len();
    let mut best: usize = 0;
    let mut best_rank: u64 = score_rank(&neighbors[0].score);
    let mut i: usize = 1;
    while i < n
        invariant
            1 <= i <= n,
            best < i,
            best_rank == spec_score_val(views(neighbors@)[best as int].score) + 1,
            forall|j: int|
                0 <= j < i ==> best_rank <= spec_score_val((#[trigger] views(neighbors@)[j]).score)
                    + 1,
            forall|j: int|
                0 <= j < best ==> spec_score_val((#[trigger] views(neighbors@)[j]).score) + 1
                    > best_rank,
        decreases n - i,
    {
        let rank = score_rank(&neighbors[i].score);
        if rank < best_rank {
            best = i;
            best_rank = rank;
        }
        i += 1;
    }
    best
}

/// The capability set of a stepping strategy: initialize from a starting
/// packing, advance one step, and read the current packing. `inv` is the
/// strategy's own invariant and `current` the model of the packing it holds.
pub trait OptimizationAlgorithm: Sized {
    spec fn inv(&self) -> bool;

    spec fn current(&self) -> PackingView;

    fn init(initial_problem: Problem) -> (r: Self)
        requires
            packing_wf(initial_problem@),
        ensures
            r.inv(),
            r.current() == initial_problem@,
    ;

    fn tick(&mut self) -> (r: Result<&Problem, SearchError>)
        requires
            old(self).inv(),
        ensures
            final(self).inv(),
            r matches Ok(p) ==> p@ == final(self).current(),
    ;

    fn get_current_solution(&self) -> (r: &Problem)
        ensures
            r@ == self.current(),
    ;
}

/// Steepest-descent-by-score local search: each step generates the full
/// geometric neighborhood of the current packing and commits the first
/// neighbor with minimum score, even when that is worse than the current
/// packing, so the search can oscillate or degrade. It has no stopping
/// criterion of its own.
pub struct LocalSearch {
    pub problem: Problem,
}

impl OptimizationAlgorithm for LocalSearch {
    open spec fn inv(&self) -> bool {
        packing_wf(self.problem@)
    }

    open spec fn current(&self) -> PackingView {
        self.problem@
    }

    fn init(initial_problem: Problem) -> (r: Self) {
        LocalSearch { problem: initial_problem }
    }

    /// One step: replace the current packing by the first minimum-score
    /// neighbor of its geometric neighborhood, or report
    /// `NoFeasibleNeighbors` and keep the packing when the filtered
    /// neighborhood is empty.
    fn tick(&mut self) -> (r: Result<&Problem, SearchError>)
        ensures
            match r {
                Ok(p) => {
                    let ns = geometric_neighborhood(old(self).problem@);
                    &&& ns.len() > 0
                    &&& exists|i: int| is_selected(ns, i) && final(self).problem@ == ns[i]
                    &&& p@ == final(self).problem@
                },
                Err(SearchError::NoFeasibleNeighbors) => {
                    &&& geometric_neighborhood(old(self).problem@).len() == 0
                    &&& *final(self) == *old(self)
                },
            },
    {
        let neighbors = get_geometric_neighbors(&self.problem);
        if neighbors.len() == 0 {
            return Err(SearchError::NoFeasibleNeighbors);
        }
        let idx = select_best(&neighbors);
        let chosen = neighbors[idx].clone();
        proof {
            assert(is_selected(geometric_neighborhood(old(self).problem@), idx as int));
            assert(chosen@ == geometric_neighborhood(old(self).problem@)[idx as int]);
        }
        self.problem = chosen;
        Ok(&self.problem)
    }

    fn get_current_solution(&self) -> (r: &Problem) {
        &self.problem
    }
}

} // verus!
