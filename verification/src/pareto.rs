//! Multi-objective Pareto front analysis.
use vstd::prelude::*;
use crate::encoding::{pow3, decode, decode_choices, lemma_decode_shape};
use crate::strategy::{TernaryStrategy, active_count_of};
use crate::table::FitnessTable;
use crate::landscape::numbers;

verus! {

/// A multi-objective optimization objective.
#[derive(Clone, Copy, Debug, PartialEq, Eq, Structural)]
pub enum Objective {
    /// Maximize cumulative reward.
    Reward,
    /// Maximize strategy entropy (diversity of choices).
    Diversity,
    /// Maximize speed (fewer non-zero actions = faster).
    Speed,
}

/// A solution on the Pareto front: reward and diversity as order keys.
#[derive(Debug)]
pub struct ParetoSolution {
    pub strategy: TernaryStrategy,
    pub reward: u64,
    pub diversity: u64,
    /// Speed score: strategy length - active_count (more zeros = faster).
    pub speed: usize,
}

impl View for ParetoSolution {
    type V = (Seq<i8>, u64, u64, nat);

    open spec fn view(&self) -> (Seq<i8>, u64, u64, nat) {
        (self.strategy@, self.reward, self.diversity, self.speed as nat)
    }
}

impl Clone for ParetoSolution {
    fn clone(&self) -> (r: Self)
        ensures
            r@ == self@,
    {
        ParetoSolution {
            strategy: self.strategy.clone(),
            reward: self.reward,
            diversity: self.diversity,
            speed: self.speed,
        }
    }
}

/// The value of a solution under one objective.
pub open spec fn objective_value(sol: (Seq<i8>, u64, u64, nat), o: Objective) -> int {
    match o {
        Objective::Reward => sol.1 as int,
        Objective::Diversity => sol.2 as int,
        Objective::Speed => sol.3 as int,
    }
}

/// `a` dominates `b` under `objectives`: no worse in every one, strictly better in some.
pub open spec fn dominates_spec(
    a: (Seq<i8>, u64, u64, nat),
    b: (Seq<i8>, u64, u64, nat),
    objectives: Seq<Objective>,
) -> bool {
    &&& forall|k: int| 0 <= k < objectives.len() ==>
            #[trigger] objective_value(a, objectives[k]) >= objective_value(b, objectives[k])
    &&& exists|k: int| 0 <= k < objectives.len() &&
            #[trigger] objective_value(a, objectives[k]) > objective_value(b, objectives[k])
}

/// The solution for strategy number `i` of length `n`.
pub open spec fn solution_view(n: nat, rewards: Seq<u64>, diversity: Seq<u64>, i: int) -> (Seq<i8>, u64, u64, nat) {
    (decode(n, i as nat), rewards[i], diversity[i], (n - active_count_of(decode(n, i as nat))) as nat)
}

/// `a` is strictly better than `b` in every one of the (at least one) objectives.
pub open spec fn better_in_all(
    a: (Seq<i8>, u64, u64, nat),
    b: (Seq<i8>, u64, u64, nat),
    objectives: Seq<Objective>,
) -> bool {
    &&& objectives.len() > 0
    &&& forall|k: int| 0 <= k < objectives.len() ==>
            #[trigger] objective_value(a, objectives[k]) > objective_value(b, objectives[k])
}

/// Strategy number `i` is Pareto-optimal: no other strategy's solution is better
/// than its own in all selected objectives.
pub open spec fn on_front(n: nat, rewards: Seq<u64>, diversity: Seq<u64>, objectives: Seq<Objective>, i: int) -> bool {
    forall|j: int| 0 <= j < rewards.len() && j != i ==>
        !better_in_all(#[trigger] solution_view(n, rewards, diversity, j), solution_view(n, rewards, diversity, i), objectives)
}

/// The predicate `on_front` for fixed inputs.
pub open spec fn front_pred(n: nat, rewards: Seq<u64>, diversity: Seq<u64>, objectives: Seq<Objective>) -> spec_fn(int) -> bool {
    |i: int| on_front(n, rewards, diversity, objectives, i)
}

/// The numbers of the Pareto-optimal strategies, in enumeration order.
pub open spec fn front_indices(n: nat, rewards: Seq<u64>, diversity: Seq<u64>, objectives: Seq<Objective>) -> Seq<int> {
    numbers(rewards.len()).filter(front_pred(n, rewards, diversity, objectives))
}

/// No solution dominates itself.
pub proof fn lemma_dominates_irreflexive(a: (Seq<i8>, u64, u64, nat), objectives: Seq<Objective>)
    ensures
        !dominates_spec(a, a, objectives),
{
}

/// Domination is asymmetric: two solutions never dominate each other.
pub proof fn lemma_dominates_asymmetric(
    a: (Seq<i8>, u64, u64, nat),
    b: (Seq<i8>, u64, u64, nat),
    objectives: Seq<Objective>,
)
    requires
        dominates_spec(a, b, objectives),
    ensures
        !dominates_spec(b, a, objectives),
{
    let k = choose|k: int| 0 <= k < objectives.len() &&
        #[trigger] objective_value(a, objectives[k]) > objective_value(b, objectives[k]);
    assert(objective_value(a, objectives[k]) >= objective_value(b, objectives[k]));
}

/// Domination is transitive.
pub proof fn lemma_dominates_transitive(
    a: (Seq<i8>, u64, u64, nat),
    b: (Seq<i8>, u64, u64, nat),
    c: (Seq<i8>, u64, u64, nat),
    objectives: Seq<Objective>,
)
    requires
        dominates_spec(a, b, objectives),
        dominates_spec(b, c, objectives),
    ensures
        dominates_spec(a, c, objectives),
{
    let k = choose|k: int| 0 <= k < objectives.len() &&
        #[trigger] objective_value(a, objectives[k]) > objective_value(b, objectives[k]);
    assert(objective_value(b, objectives[k]) >= objective_value(c, objectives[k]));
    assert(objective_value(a, objectives[k]) > objective_value(c, objectives[k]));
}

/// Being better in all objectives is irreflexive, asymmetric and transitive.
pub proof fn lemma_better_in_all_order(
    a: (Seq<i8>, u64, u64, nat),
    b: (Seq<i8>, u64, u64, nat),
    c: (Seq<i8>, u64, u64, nat),
    objectives: Seq<Objective>,
)
    ensures
        !better_in_all(a, a, objectives),
        better_in_all(a, b, objectives) ==> !better_in_all(b, a, objectives),
        better_in_all(a, b, objectives) && better_in_all(b, c, objectives) ==> better_in_all(a, c, objectives),
{
    if objectives.len() > 0 {
        assert(objective_value(a, objectives[0]) == objective_value(a, objectives[0]));
        if better_in_all(a, b, objectives) {
            assert(objective_value(a, objectives[0]) > objective_value(b, objectives[0]));
        }
        if better_in_all(a, b, objectives) && better_in_all(b, c, objectives) {
            assert forall|k: int| 0 <= k < objectives.len() implies
                #[trigger] objective_value(a, objectives[k]) > objective_value(c, objectives[k]) by {
                assert(objective_value(a, objectives[k]) > objective_value(b, objectives[k]));
                assert(objective_value(b, objectives[k]) > objective_value(c, objectives[k]));
            }
        }
    }
}

/// A solution better in all objectives dominates; so every strategy that no other
/// dominates is on the front.
pub proof fn lemma_nondominated_on_front(
    n: nat,
    rewards: Seq<u64>,
    diversity: Seq<u64>,
    objectives: Seq<Objective>,
    i: int,
)
    requires
        forall|j: int| 0 <= j < rewards.len() && j != i ==>
            !dominates_spec(#[trigger] solution_view(n, rewards, diversity, j), solution_view(n, rewards, diversity, i), objectives),
    ensures
        on_front(n, rewards, diversity, objectives, i),
{
    assert forall|j: int| 0 <= j < rewards.len() && j != i implies
        !better_in_all(#[trigger] solution_view(n, rewards, diversity, j), solution_view(n, rewards, diversity, i), objectives) by {
        let sj = solution_view(n, rewards, diversity, j);
        let si = solution_view(n, rewards, diversity, i);
        if better_in_all(sj, si, objectives) {
            assert(objective_value(sj, objectives[0]) > objective_value(si, objectives[0]));
            assert(dominates_spec(sj, si, objectives));
        }
    }
}

/// No solution on the front is better in all objectives than another solution on the front.
pub proof fn lemma_front_members_incomparable(
    n: nat,
    rewards: Seq<u64>,
    diversity: Seq<u64>,
    objectives: Seq<Objective>,
    i: int,
    j: int,
)
    requires
        0 <= i < rewards.len(),
        0 <= j < rewards.len(),
        i != j,
        on_front(n, rewards, diversity, objectives, i),
    ensures
        !better_in_all(solution_view(n, rewards, diversity, j), solution_view(n, rewards, diversity, i), objectives),
{
}

/// With no objectives every strategy is on the front.
pub proof fn lemma_no_objectives_front(n: nat, rewards: Seq<u64>, diversity: Seq<u64>, i: int)
    ensures
        on_front(n, rewards, diversity, Seq::<Objective>::empty(), i),
{
}

/// With a single objective, domination and being better in all objectives both mean
/// being strictly larger in that objective's component: reward key, diversity key, speed.
pub proof fn lemma_single_objective_order(a: (Seq<i8>, u64, u64, nat), b: (Seq<i8>, u64, u64, nat))
    ensures
        dominates_spec(a, b, seq![Objective::Reward]) <==> a.1 > b.1,
        dominates_spec(a, b, seq![Objective::Diversity]) <==> a.2 > b.2,
        dominates_spec(a, b, seq![Objective::Speed]) <==> a.3 > b.3,
        better_in_all(a, b, seq![Objective::Reward]) <==> a.1 > b.1,
        better_in_all(a, b, seq![Objective::Diversity]) <==> a.2 > b.2,
        better_in_all(a, b, seq![Objective::Speed]) <==> a.3 > b.3,
{
    let r = seq![Objective::Reward];
    let d = seq![Objective::Diversity];
    let sp = seq![Objective::Speed];
    assert(r[0] == Objective::Reward && d[0] == Objective::Diversity && sp[0] == Objective::Speed);
    assert(objective_value(a, r[0]) == a.1 && objective_value(b, r[0]) == b.1);
    assert(objective_value(a, d[0]) == a.2 && objective_value(b, d[0]) == b.2);
    assert(objective_value(a, sp[0]) == a.3 && objective_value(b, sp[0]) == b.3);
    if a.1 > b.1 {
        assert(objective_value(a, r[0]) > objective_value(b, r[0]));
    }
    if a.2 > b.2 {
        assert(objective_value(a, d[0]) > objective_value(b, d[0]));
    }
    if a.3 > b.3 {
        assert(objective_value(a, sp[0]) > objective_value(b, sp[0]));
    }
}

/// With diversity as the only objective, the front is the set of strategies of highest diversity key.
pub proof fn lemma_diversity_only_front(n: nat, rewards: Seq<u64>, diversity: Seq<u64>, i: int)
    requires
        0 <= i < rewards.len(),
        diversity.len() == rewards.len(),
    ensures
        on_front(n, rewards, diversity, seq![Objective::Diversity], i)
            <==> (forall|j: int| 0 <= j < diversity.len() ==> #[trigger] diversity[j] <= diversity[i]),
{
    let objs = seq![Objective::Diversity];
    let si = solution_view(n, rewards, diversity, i);
    if on_front(n, rewards, diversity, objs, i) {
        assert forall|j: int| 0 <= j < diversity.len() implies #[trigger] diversity[j] <= diversity[i] by {
            if j != i {
                let sj = solution_view(n, rewards, diversity, j);
                assert(!better_in_all(sj, si, objs));
                lemma_single_objective_order(sj, si);
            }
        }
    }
    if forall|j: int| 0 <= j < diversity.len() ==> #[trigger] diversity[j] <= diversity[i] {
        assert forall|j: int| 0 <= j < rewards.len() && j != i implies
            !better_in_all(#[trigger] solution_view(n, rewards, diversity, j), si, objs) by {
            assert(diversity[j] <= diversity[i]);
            lemma_single_objective_order(solution_view(n, rewards, diversity, j), si);
        }
    }
}

/// With speed as the only objective, the front is the set of strategies with the most zero choices.
pub proof fn lemma_speed_only_front(n: nat, rewards: Seq<u64>, diversity: Seq<u64>, i: int)
    requires
        0 <= i < rewards.len(),
    ensures
        on_front(n, rewards, diversity, seq![Objective::Speed], i)
            <==> (forall|j: int| 0 <= j < rewards.len() ==>
                #[trigger] active_count_of(decode(n, j as nat)) >= active_count_of(decode(n, i as nat))),
{
    let objs = seq![Objective::Speed];
    let si = solution_view(n, rewards, diversity, i);
    lemma_decode_shape(n, i as nat);
    decode(n, i as nat).lemma_filter_len(|c: i8| c != 0);
    if on_front(n, rewards, diversity, objs, i) {
        assert forall|j: int| 0 <= j < rewards.len() implies
            #[trigger] active_count_of(decode(n, j as nat)) >= active_count_of(decode(n, i as nat)) by {
            if j != i {
                let sj = solution_view(n, rewards, diversity, j);
                lemma_decode_shape(n, j as nat);
                decode(n, j as nat).lemma_filter_len(|c: i8| c != 0);
                assert(!better_in_all(sj, si, objs));
                lemma_single_objective_order(sj, si);
            }
        }
    }
    if forall|j: int| 0 <= j < rewards.len() ==>
        #[trigger] active_count_of(decode(n, j as nat)) >= active_count_of(decode(n, i as nat)) {
        assert forall|j: int| 0 <= j < rewards.len() && j != i implies
            !better_in_all(#[trigger] solution_view(n, rewards, diversity, j), si, objs) by {
            assert(active_count_of(decode(n, j as nat)) >= active_count_of(decode(n, i as nat)));
            lemma_decode_shape(n, j as nat);
            decode(n, j as nat).lemma_filter_len(|c: i8| c != 0);
            lemma_single_objective_order(solution_view(n, rewards, diversity, j), si);
        }
    }
}

/// With reward as the only objective, the front is the set of strategies of highest reward.
pub proof fn lemma_reward_only_front(n: nat, rewards: Seq<u64>, diversity: Seq<u64>, i: int)
    requires
        0 <= i < rewards.len(),
    ensures
        on_front(n, rewards, diversity, seq![Objective::Reward], i)
            <==> (forall|j: int| 0 <= j < rewards.len() ==> #[trigger] rewards[j] <= rewards[i]),
{
    let objs = seq![Objective::Reward];
    let si = solution_view(n, rewards, diversity, i);
    if on_front(n, rewards, diversity, objs, i) {
        assert forall|j: int| 0 <= j < rewards.len() implies #[trigger] rewards[j] <= rewards[i] by {
            if j != i {
                let sj = solution_view(n, rewards, diversity, j);
                assert(!better_in_all(sj, si, objs));
                if rewards[j] > rewards[i] {
                    assert forall|k: int| 0 <= k < objs.len() implies
                        #[trigger] objective_value(sj, objs[k]) > objective_value(si, objs[k]) by {
                        assert(k == 0);
                    }
                }
            }
        }
    }
    if forall|j: int| 0 <= j < rewards.len() ==> #[trigger] rewards[j] <= rewards[i] {
        assert forall|j: int| 0 <= j < rewards.len() && j != i implies
            !better_in_all(#[trigger] solution_view(n, rewards, diversity, j), si, objs) by {
            assert(rewards[j] <= rewards[i]);
            assert(objective_value(solution_view(n, rewards, diversity, j), objs[0]) <= objective_value(si, objs[0]));
        }
    }
}

/// When reward is among the objectives, every strategy of highest reward is on the front.
pub proof fn lemma_front_has_max_reward(
    n: nat,
    rewards: Seq<u64>,
    diversity: Seq<u64>,
    objectives: Seq<Objective>,
    r: int,
)
    requires
        objectives.contains(Objective::Reward),
        0 <= r < rewards.len(),
        forall|x: int| 0 <= x < rewards.len() ==> #[trigger] rewards[x] <= rewards[r],
    ensures
        on_front(n, rewards, diversity, objectives, r),
{
    let sr = solution_view(n, rewards, diversity, r);
    let kr = choose|k: int| 0 <= k < objectives.len() && objectives[k] == Objective::Reward;
    assert forall|j: int| 0 <= j < rewards.len() && j != r implies
        !better_in_all(#[trigger] solution_view(n, rewards, diversity, j), sr, objectives) by {
        assert(rewards[j] <= rewards[r]);
        assert(objective_value(solution_view(n, rewards, diversity, j), objectives[kr]) <= objective_value(sr, objectives[kr]));
    }
}

/// The sum of a solution's values over the objectives.
pub open spec fn value_sum(a: (Seq<i8>, u64, u64, nat), objectives: Seq<Objective>) -> int
    decreases objectives.len(),
{
    if objectives.len() == 0 {
        0
    } else {
        value_sum(a, objectives.drop_last()) + objective_value(a, objectives.last())
    }
}

proof fn lemma_value_sum_monotone(a: (Seq<i8>, u64, u64, nat), b: (Seq<i8>, u64, u64, nat), objectives: Seq<Objective>)
    requires
        forall|k: int| 0 <= k < objectives.len() ==>
            #[trigger] objective_value(a, objectives[k]) >= objective_value(b, objectives[k]),
    ensures
        value_sum(a, objectives) >= value_sum(b, objectives),
        (exists|k: int| 0 <= k < objectives.len() &&
            #[trigger] objective_value(a, objectives[k]) > objective_value(b, objectives[k]))
            ==> value_sum(a, objectives) > value_sum(b, objectives),
    decreases objectives.len(),
{
    if objectives.len() > 0 {
        let init = objectives.drop_last();
        assert forall|k: int| 0 <= k < init.len() implies
            #[trigger] objective_value(a, init[k]) >= objective_value(b, init[k]) by {
            assert(init[k] == objectives[k]);
        }
        lemma_value_sum_monotone(a, b, init);
        let last = objectives.len() - 1;
        assert(objective_value(a, objectives[last]) >= objective_value(b, objectives[last]));
        if exists|k: int| 0 <= k < objectives.len() &&
            #[trigger] objective_value(a, objectives[k]) > objective_value(b, objectives[k]) {
            let k = choose|k: int| 0 <= k < objectives.len() &&
                #[trigger] objective_value(a, objectives[k]) > objective_value(b, objectives[k]);
            if k < last {
                assert(init[k] == objectives[k]);
                assert(objective_value(a, init[k]) > objective_value(b, init[k]));
            }
        }
    }
}

proof fn lemma_max_sum_exists(n: nat, rewards: Seq<u64>, diversity: Seq<u64>, objectives: Seq<Objective>, len: int) -> (i: int)
    requires
        1 <= len,
    ensures
        0 <= i < len,
        forall|j: int| 0 <= j < len ==>
            #[trigger] value_sum(solution_view(n, rewards, diversity, j), objectives)
                <= value_sum(solution_view(n, rewards, diversity, i), objectives),
    decreases len,
{
    if len == 1 {
        0
    } else {
        let p = lemma_max_sum_exists(n, rewards, diversity, objectives, len - 1);
        let last = len - 1;
        if value_sum(solution_view(n, rewards, diversity, last), objectives)
            >= value_sum(solution_view(n, rewards, diversity, p), objectives) {
            last
        } else {
            p
        }
    }
}

/// The Pareto front of a non-empty set of strategies is non-empty.
pub proof fn lemma_front_nonempty(n: nat, rewards: Seq<u64>, diversity: Seq<u64>, objectives: Seq<Objective>)
    requires
        rewards.len() >= 1,
    ensures
        front_indices(n, rewards, diversity, objectives).len() >= 1,
{
    let i = lemma_max_sum_exists(n, rewards, diversity, objectives, rewards.len() as int);
    let si = solution_view(n, rewards, diversity, i);
    assert forall|j: int| 0 <= j < rewards.len() && j != i implies
        !better_in_all(#[trigger] solution_view(n, rewards, diversity, j), si, objectives) by {
        let sj = solution_view(n, rewards, diversity, j);
        if better_in_all(sj, si, objectives) {
            assert(objective_value(sj, objectives[0]) > objective_value(si, objectives[0]));
            lemma_value_sum_monotone(sj, si, objectives);
        }
    }
    let nums = numbers(rewards.len());
    assert(nums[i] == i);
    nums.lemma_filter_contains(front_pred(n, rewards, diversity, objectives), i);
}

/// Pareto front computation for multi-objective ternary optimization.
pub struct ParetoFront;

impl ParetoFront {
    /// Check if `a` dominates `b` across all given objectives.
    pub fn dominates(a: &ParetoSolution, b: &ParetoSolution, objectives: &[Objective]) -> (r: bool)
        ensures
            r == dominates_spec(a@, b@, objectives@),
    {
        let mut at_least_one_better = false;
        let mut k: usize = 0;
        while k < objectives.len()
            invariant
                k <= objectives@.len(),
                forall|j: int| 0 <= j < k ==>
                    #[trigger] objective_value(a@, objectives@[j]) >= objective_value(b@, objectives@[j]),
                at_least_one_better == exists|j: int| 0 <= j < k &&
                    #[trigger] objective_value(a@, objectives@[j]) > objective_value(b@, objectives@[j]),
            decreases objectives@.len() - k,
        {
            let (va, vb): (u64, u64) = match objectives[k] {
                Objective::Reward => (a.reward, b.reward),
                Objective::Diversity => (a.diversity, b.diversity),
                Objective::Speed => (a.speed as u64, b.speed as u64),
            };
            proof {
                assert(va as int == objective_value(a@, objectives@[k as int]));
                assert(vb as int == objective_value(b@, objectives@[k as int]));
            }
            if va < vb {
                return false;
            }
            if va > vb {
                at_least_one_better = true;
            }
            k = k + 1;
        }
        at_least_one_better
    }

    /// Whether `a` is strictly better than `b` in every one of the given objectives
    /// (false when there are none).
    fn improves_on_all(a: &ParetoSolution, b: &ParetoSolution, objectives: &[Objective]) -> (r: bool)
        ensures
            r == better_in_all(a@, b@, objectives@),
    {
        if objectives.len() == 0 {
            return false;
        }
        let mut k: usize = 0;
        while k < objectives.len()
            invariant
                k <= objectives@.len(),
                forall|j: int| 0 <= j < k ==>
                    #[trigger] objective_value(a@, objectives@[j]) > objective_value(b@, objectives@[j]),
            decreases objectives@.len() - k,
        {
            let (va, vb): (u64, u64) = match objectives[k] {
                Objective::Reward => (a.reward, b.reward),
                Objective::Diversity => (a.diversity, b.diversity),
                Objective::Speed => (a.speed as u64, b.speed as u64),
            };
            proof {
                assert(va as int == objective_value(a@, objectives@[k as int]));
                assert(vb as int == objective_value(b@, objectives@[k as int]));
            }
            if va <= vb {
                return false;
            }
            k = k + 1;
        }
        true
    }

    /// Compute all Pareto-optimal solutions for the given objectives, in enumeration order.
    ///
    /// `rewards` and `diversity` hold the order keys of each strategy's reward and
    /// entropy. A solution is Pareto-optimal if no other solution is better in all
    /// selected objectives; with no objectives every solution is.
    pub fn compute(rewards: &FitnessTable, diversity: &FitnessTable, objectives: &[Objective]) -> (r: Vec<ParetoSolution>)
        requires
            diversity.dim() == rewards.dim(),
        ensures
            r@.len() == front_indices(rewards.dim(), rewards.key_seq(), diversity.key_seq(), objectives@).len(),
            forall|q: int| 0 <= q < r@.len() ==> #[trigger] r@[q]@ == solution_view(rewards.dim(),
                rewards.key_seq(), diversity.key_seq(),
                front_indices(rewards.dim(), rewards.key_seq(), diversity.key_seq(), objectives@)[q]),
    {
        let n = rewards.num_states();
        let _ = diversity.num_states();
        let total = rewards.size();
        let ghost rk = rewards.key_seq();
        let ghost dk = diversity.key_seq();
        let mut solutions: Vec<ParetoSolution> = Vec::with_capacity(total);
        let mut i: usize = 0;
        while i < total
            invariant
                n == rewards.dim(),
                total == rk.len(),
                rk == rewards.key_seq(),
                dk == diversity.key_seq(),
                dk.len() == rk.len(),
                i <= total,
                solutions@.len() == i,
                forall|j: int| 0 <= j < i ==> #[trigger] solutions@[j]@ == solution_view(n as nat, rk, dk, j),
            decreases total - i,
        {
            let strategy = TernaryStrategy::new(decode_choices(n, i));
            let active = strategy.active_count();
            proof {
                lemma_decode_shape(n as nat, i as nat);
                strategy@.lemma_filter_len(|c: i8| c != 0);
            }
            let speed = n - active;
            solutions.push(ParetoSolution {
                strategy,
                reward: rewards.key(i),
                diversity: diversity.key(i),
                speed,
            });
            i = i + 1;
        }

        let ghost pred = front_pred(n as nat, rk, dk, objectives@);
        let mut front: Vec<ParetoSolution> = Vec::new();
        i = 0;
        while i < total
            invariant
                n == rewards.dim(),
                total == rk.len(),
                rk == rewards.key_seq(),
                dk == diversity.key_seq(),
                dk.len() == rk.len(),
                solutions@.len() == total,
                forall|j: int| 0 <= j < total ==> #[trigger] solutions@[j]@ == solution_view(n as nat, rk, dk, j),
                pred == front_pred(n as nat, rk, dk, objectives@),
                i <= total,
                front@.len() == numbers(i as nat).filter(pred).len(),
                forall|q: int| 0 <= q < front@.len() ==>
                    #[trigger] front@[q]@ == solution_view(n as nat, rk, dk, numbers(i as nat).filter(pred)[q]),
            decreases total - i,
        {
            let candidate = &solutions[i];
            proof {
                assert(solutions@[i as int]@ == solution_view(n as nat, rk, dk, i as int));
            }
            let mut improved_on = false;
            let mut j: usize = 0;
            while j < total
                invariant
                    total == rk.len(),
                    solutions@.len() == total,
                    forall|x: int| 0 <= x < total ==> #[trigger] solutions@[x]@ == solution_view(n as nat, rk, dk, x),
                    i < total,
                    candidate@ == solution_view(n as nat, rk, dk, i as int),
                    j <= total,
                    improved_on == exists|x: int| 0 <= x < j && x != i &&
                        better_in_all(#[trigger] solution_view(n as nat, rk, dk, x), candidate@, objectives@),
                decreases total - j,
            {
                let other = &solutions[j];
                proof {
                    assert(solutions@[j as int]@ == solution_view(n as nat, rk, dk, j as int));
                }
                if j != i && Self::improves_on_all(other, candidate, objectives) {
                    improved_on = true;
                }
                j = j + 1;
            }
            proof {
                assert(numbers((i + 1) as nat) =~= numbers(i as nat).push(i as int));
                numbers(i as nat).lemma_filter_push(i as int, pred);
                assert(!improved_on == on_front(n as nat, rk, dk, objectives@, i as int));
            }
            let ghost before = front@;
            if !improved_on {
                front.push(candidate.clone());
                proof {
                    let f = numbers(i as nat).filter(pred);
                    assert forall|q: int| 0 <= q < front@.len() implies
                        #[trigger] front@[q]@ == solution_view(n as nat, rk, dk, f.push(i as int)[q]) by {
                        if q < f.len() {
                            assert(front@[q] == before[q]);
                        }
                    }
                }
            }
            i = i + 1;
        }
        proof {
            assert(numbers(total as nat) == numbers(rk.len()));
        }
        front
    }
}

} // verus!
