//! Hidden Markov models in cost space, and their Viterbi decoding.
//!
//! A model is built from probabilities and keeps, for each of them, the cost
//! `-log2(p)`: products of probabilities become sums of costs, and the most
//! probable path becomes the cheapest one.

use crate::fixed::spec_saturating_sum;
use crate::matrices::{
    all_non_negative, column_argmins, column_minima, column_of, costs_of, first_min,
    is_first_min, lemma_first_min_exists, rectangular, rows_raised, sum_of, table_costs,
    table_non_negative, Matrix, Vector,
};
use vstd::prelude::*;

verus! {

/// Why a model could not be built, or a sequence not decoded.
#[derive(Debug, PartialEq, Eq, Clone, Copy, Structural)]
pub enum HmmError {
    /// A table has no row, no column, rows of different lengths, or a shape
    /// that does not fit the number of states.
    DimensionError,
    /// Fewer than two states.
    TooFewStates,
    /// An entry below zero where a probability is expected.
    NegativeValue,
    /// Fewer than two observable labels.
    TooFewOutcomes,
    /// No observation at all, or a label the model does not know.
    InvalidObservation,
}

/// The first check, in the order in which a model is validated, that the
/// given probabilities fail; `None` when they pass them all.
pub open spec fn first_failure(
    initials: Seq<i64>,
    transitions: Seq<Seq<i64>>,
    emissions: Seq<Seq<i64>>,
) -> Option<HmmError> {
    if initials.len() < 2 {
        Some(HmmError::TooFewStates)
    } else if !all_non_negative(initials) {
        Some(HmmError::NegativeValue)
    } else if !rectangular(transitions) {
        Some(HmmError::DimensionError)
    } else if !table_non_negative(transitions) {
        Some(HmmError::NegativeValue)
    } else if !rectangular(emissions) {
        Some(HmmError::DimensionError)
    } else if !table_non_negative(emissions) {
        Some(HmmError::NegativeValue)
    } else if emissions[0].len() < 2 {
        Some(HmmError::TooFewOutcomes)
    } else if transitions.len() != initials.len() || transitions[0].len() != initials.len()
        || emissions.len() != initials.len() {
        Some(HmmError::DimensionError)
    } else {
        None
    }
}

/// Fewer than two states, or a negative initial probability, fail the
/// construction whatever the two tables hold.
pub proof fn lemma_bad_initials_fail(
    initials: Seq<i64>,
    transitions: Seq<Seq<i64>>,
    emissions: Seq<Seq<i64>>,
    i: int,
)
    requires
        initials.len() < 2 || (0 <= i < initials.len() && initials[i] < 0),
    ensures
        first_failure(initials, transitions, emissions) == Some(
            if initials.len() < 2 {
                HmmError::TooFewStates
            } else {
                HmmError::NegativeValue
            },
        ),
{
}

/// The mathematical content of a model: its three tables of costs.
pub struct CostModel {
    /// Cost of starting in each state.
    pub init: Seq<i64>,
    /// Cost of moving from the row's state to the column's state.
    pub transitions: Seq<Seq<i64>>,
    /// Cost of observing the column's label in the row's state.
    pub emissions: Seq<Seq<i64>>,
}

impl CostModel {
    /// Number of hidden states.
    pub open spec fn state_count(self) -> nat {
        self.init.len()
    }

    /// Number of observable labels.
    pub open spec fn label_count(self) -> nat {
        self.emissions[0].len()
    }

    /// The tables fit together: at least two states and two labels, a square
    /// transition table, and one row of emissions per state.
    pub open spec fn well_formed(self) -> bool {
        &&& 2 <= self.init.len() <= usize::MAX
        &&& rectangular(self.transitions)
        &&& self.transitions.len() == self.init.len()
        &&& self.transitions[0].len() == self.init.len()
        &&& rectangular(self.emissions)
        &&& self.emissions.len() == self.init.len()
        &&& self.emissions[0].len() >= 2
    }

    /// A sequence that can be decoded: not empty, every label known.
    pub open spec fn accepts(self, observations: Seq<usize>) -> bool {
        &&& observations.len() > 0
        &&& forall|t: int|
            0 <= t < observations.len() ==> observations[t] < self.label_count()
    }

    /// Scores of one step. Entry `[i][j]` is the cost of having reached state
    /// `i` at `cost[i]`, of observing `label` there, and of moving on to `j`.
    pub open spec fn scores(self, cost: Seq<i64>, label: int) -> Seq<Seq<i64>> {
        rows_raised(self.transitions, sum_of(cost, column_of(self.emissions, label)))
    }

    /// Least cost of being in each state once the first `t` observations are
    /// accounted for.
    pub open spec fn costs_after(self, observations: Seq<usize>, t: nat) -> Seq<i64>
        decreases t,
    {
        if t == 0 {
            self.init
        } else {
            column_minima(
                self.scores(
                    self.costs_after(observations, (t - 1) as nat),
                    observations[t - 1] as int,
                ),
            )
        }
    }

    /// For each state reached by step `t`, the state it is best reached from.
    pub open spec fn backpointers(self, observations: Seq<usize>, t: nat) -> Seq<usize> {
        column_argmins(
            self.scores(self.costs_after(observations, t), observations[t as int] as int),
        )
    }

    /// The state in which the model is best left after the last observation:
    /// the cheapest one; of several equally cheap ones, the first.
    pub open spec fn end_state(self, observations: Seq<usize>) -> usize {
        first_min(self.costs_after(observations, observations.len())) as usize
    }

    /// State of the decoded path at step `t`. The last one is the state from
    /// which the end state is best reached, and each earlier one the state
    /// from which its successor is.
    pub open spec fn state_at(self, observations: Seq<usize>, t: nat) -> usize
        decreases observations.len() - t,
    {
        if t + 1 >= observations.len() {
            self.backpointers(observations, t)[self.end_state(observations) as int]
        } else {
            self.backpointers(observations, t)[self.state_at(observations, t + 1) as int]
        }
    }

    /// The decoded path: one state per observation.
    pub open spec fn path(self, observations: Seq<usize>) -> Seq<usize> {
        Seq::new(observations.len(), |t: int| self.state_at(observations, t as nat))
    }

    /// The decoded path followed by the state it ends in: one state before
    /// each observation and one after the last.
    pub open spec fn route(self, observations: Seq<usize>) -> Seq<usize> {
        self.path(observations).push(self.end_state(observations))
    }

    /// A route through the model for the given observations: one state
    /// before each observation and one after the last.
    pub open spec fn is_route(self, observations: Seq<usize>, route: Seq<usize>) -> bool {
        &&& route.len() == observations.len() + 1
        &&& forall|k: int| 0 <= k < route.len() ==> route[k] < self.state_count()
    }

    /// No route through the model is cheaper than that of the decoded path.
    pub open spec fn decodes_cheapest(self, observations: Seq<usize>) -> bool {
        forall|other: Seq<usize>| #[trigger]
            self.is_route(observations, other) ==> self.route_cost(
                observations,
                self.route(observations),
                observations.len(),
            ) <= self.route_cost(observations, other, observations.len())
    }

    /// Cost of following `route` through the first `t` observations: the cost
    /// of starting in `route[0]`, and for each observation the cost of
    /// emitting it in the current state and of moving on to the next.
    pub open spec fn route_cost(self, observations: Seq<usize>, route: Seq<usize>, t: nat) -> i64
        decreases t,
    {
        if t == 0 {
            self.init[route[0] as int]
        } else {
            let from = route[t - 1] as int;
            let to = route[t as int] as int;
            spec_saturating_sum(
                self.transitions[from][to],
                spec_saturating_sum(
                    self.route_cost(observations, route, (t - 1) as nat),
                    self.emissions[from][observations[t - 1] as int],
                ),
            )
        }
    }

    /// What decoding returns: the path, or nothing for a sequence that
    /// cannot be decoded.
    pub open spec fn map_estimate(self, observations: Seq<usize>) -> Seq<usize> {
        if self.accepts(observations) {
            self.path(observations)
        } else {
            Seq::empty()
        }
    }
}

proof fn lemma_costs_shape(t: Seq<Seq<i64>>)
    requires
        rectangular(t),
    ensures
        rectangular(table_costs(t)),
        table_costs(t).len() == t.len(),
        table_costs(t)[0].len() == t[0].len(),
{
    assert forall|i: int| 0 <= i < t.len() implies (#[trigger] table_costs(t)[i]).len()
        == t[0].len() by {
        assert(t[i].len() == t[0].len());
    }
}

/// The scores of a step have the shape of the transition table, so a step
/// yields one cost and one backpointer per state, and every backpointer names
/// a state.
pub proof fn lemma_step_shape(m: CostModel, cost: Seq<i64>, label: int)
    requires
        m.well_formed(),
    ensures
        rectangular(m.scores(cost, label)),
        m.scores(cost, label).len() == m.state_count(),
        m.scores(cost, label)[0].len() == m.state_count(),
        column_minima(m.scores(cost, label)).len() == m.state_count(),
        column_argmins(m.scores(cost, label)).len() == m.state_count(),
        forall|j: int|
            0 <= j < m.state_count() ==> (#[trigger] column_argmins(m.scores(cost, label))[j])
                < m.state_count(),
{
    let s = m.scores(cost, label);
    assert forall|i: int| 0 <= i < s.len() implies (#[trigger] s[i]).len()
        == m.state_count() by {
        assert(m.transitions[i].len() == m.transitions[0].len());
    }
    assert forall|j: int| 0 <= j < m.state_count() implies (#[trigger] column_argmins(s)[j])
        < m.state_count() by {
        lemma_first_min_exists(column_of(s, j));
    }
}

/// Every running cost vector has one entry per state.
pub proof fn lemma_costs_after_len(m: CostModel, observations: Seq<usize>, t: nat)
    requires
        m.well_formed(),
    ensures
        m.costs_after(observations, t).len() == m.state_count(),
    decreases t,
{
    if t > 0 {
        lemma_step_shape(
            m,
            m.costs_after(observations, (t - 1) as nat),
            observations[t - 1] as int,
        );
    }
}

/// The end state is a state of the model, and none is cheaper to end in.
pub proof fn lemma_end_state_bound(m: CostModel, observations: Seq<usize>)
    requires
        m.well_formed(),
    ensures
        m.end_state(observations) < m.state_count(),
        is_first_min(
            m.costs_after(observations, observations.len()),
            m.end_state(observations) as int,
        ),
{
    lemma_costs_after_len(m, observations, observations.len());
    lemma_first_min_exists(m.costs_after(observations, observations.len()));
}

/// Every state of the decoded path is a state of the model.
pub proof fn lemma_state_at_bound(m: CostModel, observations: Seq<usize>, t: nat)
    requires
        m.well_formed(),
        t < observations.len(),
    ensures
        m.state_at(observations, t) < m.state_count(),
    decreases observations.len() - t,
{
    lemma_step_shape(m, m.costs_after(observations, t), observations[t as int] as int);
    if t + 1 >= observations.len() {
        lemma_end_state_bound(m, observations);
    } else {
        lemma_state_at_bound(m, observations, t + 1);
    }
}

/// Decoding a sequence that the model accepts yields exactly one state per
/// observation, and each of them is a state of the model.
pub proof fn lemma_map_estimate_shape(m: CostModel, observations: Seq<usize>)
    requires
        m.well_formed(),
        m.accepts(observations),
    ensures
        m.map_estimate(observations).len() == observations.len(),
        forall|t: int|
            0 <= t < observations.len() ==> (#[trigger] m.map_estimate(observations)[t])
                < m.state_count(),
{
    assert forall|t: int| 0 <= t < observations.len() implies (#[trigger] m.map_estimate(
        observations,
    )[t]) < m.state_count() by {
        lemma_state_at_bound(m, observations, t as nat);
    }
}

/// What a step scores for the move from state `i` to state `j`, and how the
/// step's result relates to it: the cost kept for `j` is the score of the
/// move from its backpointer, and no move into `j` scores less.
pub proof fn lemma_step_entry(m: CostModel, cost: Seq<i64>, label: int, i: int, j: int)
    requires
        m.well_formed(),
        cost.len() == m.state_count(),
        0 <= label < m.label_count(),
        0 <= i < m.state_count(),
        0 <= j < m.state_count(),
    ensures
        m.scores(cost, label)[i][j] == spec_saturating_sum(
            m.transitions[i][j],
            spec_saturating_sum(cost[i], m.emissions[i][label]),
        ),
        column_minima(m.scores(cost, label))[j] <= m.scores(cost, label)[i][j],
        column_minima(m.scores(cost, label))[j] == m.scores(
            cost,
            label,
        )[column_argmins(m.scores(cost, label))[j] as int][j],
{
    let s = m.scores(cost, label);
    lemma_step_shape(m, cost, label);
    assert(m.transitions[i].len() == m.transitions[0].len());
    let col = column_of(s, j);
    lemma_first_min_exists(col);
    assert(col[first_min(col)] <= col[i]);
}

/// No route into a state is cheaper than the running cost kept for it.
pub proof fn lemma_costs_after_is_least(
    m: CostModel,
    observations: Seq<usize>,
    route: Seq<usize>,
    t: nat,
)
    requires
        m.well_formed(),
        m.accepts(observations),
        t <= observations.len(),
        t < route.len(),
        forall|k: int| 0 <= k <= t ==> route[k] < m.state_count(),
    ensures
        m.costs_after(observations, t)[route[t as int] as int] <= m.route_cost(
            observations,
            route,
            t,
        ),
    decreases t,
{
    if t > 0 {
        let before = (t - 1) as nat;
        lemma_costs_after_is_least(m, observations, route, before);
        lemma_costs_after_len(m, observations, before);
        lemma_step_entry(
            m,
            m.costs_after(observations, before),
            observations[t - 1] as int,
            route[t - 1] as int,
            route[t as int] as int,
        );
    }
}

/// The decoded route costs, up to each of its states, exactly the running
/// cost kept for that state.
pub proof fn lemma_route_cost_is_kept(m: CostModel, observations: Seq<usize>, t: nat)
    requires
        m.well_formed(),
        m.accepts(observations),
        t <= observations.len(),
    ensures
        m.route(observations)[t as int] < m.state_count(),
        m.route_cost(observations, m.route(observations), t) == m.costs_after(
            observations,
            t,
        )[m.route(observations)[t as int] as int],
    decreases t,
{
    let route = m.route(observations);
    lemma_end_state_bound(m, observations);
    if t < observations.len() {
        lemma_state_at_bound(m, observations, t);
    }
    if t > 0 {
        let before = (t - 1) as nat;
        lemma_route_cost_is_kept(m, observations, before);
        lemma_costs_after_len(m, observations, before);
        lemma_step_entry(
            m,
            m.costs_after(observations, before),
            observations[t - 1] as int,
            route[t - 1] as int,
            route[t as int] as int,
        );
        assert(route[t - 1] == m.state_at(observations, before));
        assert(route[t - 1] == m.backpointers(observations, before)[route[t as int] as int]);
    }
}

/// The decoded path is the cheapest, and so the most probable: followed by
/// the state it ends in, it costs no more than any other route through the
/// model.
pub proof fn lemma_route_is_cheapest(m: CostModel, observations: Seq<usize>, other: Seq<usize>)
    requires
        m.well_formed(),
        m.accepts(observations),
        m.is_route(observations, other),
    ensures
        m.is_route(observations, m.route(observations)),
        m.route_cost(observations, m.route(observations), observations.len()) <= m.route_cost(
            observations,
            other,
            observations.len(),
        ),
{
    let n = observations.len();
    let last = m.costs_after(observations, n);
    assert forall|k: int| 0 <= k < m.route(observations).len() implies m.route(observations)[k]
        < m.state_count() by {
        lemma_route_cost_is_kept(m, observations, k as nat);
    }
    lemma_route_cost_is_kept(m, observations, n);
    lemma_costs_after_is_least(m, observations, other, n);
    lemma_end_state_bound(m, observations);
    lemma_costs_after_len(m, observations, n);
    assert(last[m.end_state(observations) as int] <= last[other[n as int] as int]);
}

/// Decoding is a function of the model and the observations: the same
/// sequence decoded twice on the same model gives the same path.
pub proof fn lemma_map_estimate_repeatable(
    m: CostModel,
    first: Seq<usize>,
    second: Seq<usize>,
    first_path: Seq<usize>,
    second_path: Seq<usize>,
)
    requires
        first == second,
        first_path == m.map_estimate(first),
        second_path == m.map_estimate(second),
    ensures
        first_path == second_path,
{
}

/// A hidden Markov model of order one. States and labels are numbered from
/// zero.
pub struct HiddenMarkov {
    labels_count: usize,
    init_states: Vector,
    state_transitions: Matrix,
    observation_model: Matrix,
}

impl View for HiddenMarkov {
    type V = CostModel;

    closed spec fn view(&self) -> CostModel {
        CostModel {
            init: self.init_states@,
            transitions: self.state_transitions@,
            emissions: self.observation_model@,
        }
    }
}

impl HiddenMarkov {
    #[verifier::type_invariant]
    spec fn inv(&self) -> bool {
        &&& self@.well_formed()
        &&& self.labels_count == self@.label_count()
    }

    /// Builds a model from probabilities.
    ///
    /// `initials` holds the probability of starting in each state,
    /// `transitions` the probability of moving from the row's state to the
    /// column's, `observation_model` the probability of observing the
    /// column's label in the row's state. The checks run in the order of
    /// [`first_failure`]; a model that passes them keeps the cost of each
    /// probability.
    pub fn new(
        initials: Vec<i64>,
        transitions: Vec<Vec<i64>>,
        observation_model: Vec<Vec<i64>>,
    ) -> (r: Result<HiddenMarkov, HmmError>)
        ensures
            match r {
                Ok(m) => {
                    &&& first_failure(
                        initials@,
                        transitions.deep_view(),
                        observation_model.deep_view(),
                    ) is None
                    &&& m@.well_formed()
                    &&& m@.init == costs_of(initials@)
                    &&& m@.transitions == table_costs(transitions.deep_view())
                    &&& m@.emissions == table_costs(observation_model.deep_view())
                },
                Err(e) => first_failure(
                    initials@,
                    transitions.deep_view(),
                    observation_model.deep_view(),
                ) == Some(e),
            },
    {
        let num_states: usize = initials.len();
        if num_states < 2 {
            return Err(HmmError::TooFewStates);
        }
        let init = Vector::new(initials);
        if !init.is_positive() {
            return Err(HmmError::NegativeValue);
        }
        let trans = match Matrix::new(transitions) {
            Some(m) => m,
            None => {
                return Err(HmmError::DimensionError);
            },
        };
        if !trans.is_positive() {
            return Err(HmmError::NegativeValue);
        }
        let obs = match Matrix::new(observation_model) {
            Some(m) => m,
            None => {
                return Err(HmmError::DimensionError);
            },
        };
        if !obs.is_positive() {
            return Err(HmmError::NegativeValue);
        }
        let num_outcomes: usize = obs.cols();
        if num_outcomes < 2 {
            return Err(HmmError::TooFewOutcomes);
        }
        if trans.rows() != num_states || trans.cols() != num_states || obs.rows() != num_states {
            return Err(HmmError::DimensionError);
        }
        let init_log = init.minus_log();
        let trans_log = trans.minus_log();
        let obs_log = obs.minus_log();
        proof {
            lemma_costs_shape(trans@);
            lemma_costs_shape(obs@);
        }
        Ok(
            HiddenMarkov {
                labels_count: num_outcomes,
                init_states: init_log,
                state_transitions: trans_log,
                observation_model: obs_log,
            },
        )
    }

    /// Number of hidden states.
    pub fn state_count(&self) -> (n: usize)
        ensures
            n == self@.state_count(),
            self@.well_formed(),
    {
        proof {
            use_type_invariant(self);
        }
        self.init_states.len()
    }

    /// Number of observable labels.
    pub fn label_count(&self) -> (n: usize)
        ensures
            n == self@.label_count(),
            self@.well_formed(),
    {
        proof {
            use_type_invariant(self);
        }
        self.labels_count
    }

    /// Cost, for each state, of observing `label` there: one column of the
    /// emission table.
    fn state_from_observation(&self, label: usize) -> (r: Vector)
        requires
            label < self@.label_count(),
        ensures
            r@ == column_of(self@.emissions, label as int),
    {
        proof {
            use_type_invariant(self);
        }
        self.observation_model.column(label).unwrap()
    }

    /// Folds the transitions into `phi`: the least cost of arriving in each
    /// state, and the state it is best reached from.
    fn next_msg_and_traceback(&self, phi: &Vector) -> (r: (Vector, Vec<usize>))
        ensures
            r.0@ == column_minima(rows_raised(self@.transitions, phi@)),
            r.1@ == column_argmins(rows_raised(self@.transitions, phi@)),
    {
        let mat = self.state_transitions.add_to_columns(phi);
        (mat.min_by_column(), mat.argmin_by_column())
    }

    /// Most probable sequence of states behind the observed labels.
    ///
    /// Fails with [`HmmError::InvalidObservation`] when there is no
    /// observation or when a label is not one of the model's.
    pub fn try_map_estimate(
        &self,
        observations: &Vec<usize>,
    ) -> (r: Result<Vec<usize>, HmmError>)
        ensures
            match r {
                Ok(states) => {
                    &&& self@.accepts(observations@)
                    &&& states@ == self@.path(observations@)
                    &&& states@.len() == observations@.len()
                    &&& forall|t: int|
                        0 <= t < states@.len() ==> (#[trigger] states@[t]) < self@.state_count()
                    &&& self@.decodes_cheapest(observations@)
                },
                Err(e) => !self@.accepts(observations@) && e == HmmError::InvalidObservation,
            },
    {
        proof {
            use_type_invariant(self);
        }
        let ghost m = self@;
        let ghost obs = observations@;
        let obs_len: usize = observations.len();
        if obs_len == 0 {
            return Err(HmmError::InvalidObservation);
        }
        let mut k: usize = 0;
        while k < obs_len
            invariant
                k <= obs_len,
                obs_len == observations@.len(),
                self.inv(),
                forall|t: int| 0 <= t < k ==> observations@[t] < self.labels_count,
            decreases obs_len - k,
        {
            if observations[k] >= self.labels_count {
                assert(!(observations@[k as int] < self@.label_count()));
                return Err(HmmError::InvalidObservation);
            }
            k = k + 1;
        }
        assert(m.accepts(obs));

        let mut last_msg: Vector = self.init_states.clone();
        let mut tracebacks: Vec<Vec<usize>> = Vec::with_capacity(obs_len);
        let mut i: usize = 0;
        while i < obs_len
            invariant
                i <= obs_len,
                obs_len == obs.len(),
                obs == observations@,
                m == self@,
                self.inv(),
                m.accepts(obs),
                last_msg@ == m.costs_after(obs, i as nat),
                tracebacks@.len() == i,
                forall|t: int|
                    0 <= t < i ==> (#[trigger] tracebacks@[t])@ == m.backpointers(obs, t as nat),
            decreases obs_len - i,
        {
            let phi = last_msg.add_vector(&self.state_from_observation(observations[i]));
            let (msg, t) = self.next_msg_and_traceback(&phi);
            last_msg = msg;
            tracebacks.push(t);
            i = i + 1;
        }

        proof {
            lemma_costs_after_len(m, obs, obs.len());
        }
        let mut states: Vec<usize> = vec![0; obs_len];
        let mut last_state: usize = last_msg.argmin();
        assert(last_state == m.end_state(obs));
        let mut i: usize = obs_len;
        while i > 0
            invariant
                i <= obs_len,
                obs_len == obs.len(),
                obs_len > 0,
                m.well_formed(),
                states@.len() == obs_len,
                tracebacks@.len() == obs_len,
                forall|t: int|
                    0 <= t < obs_len ==> (#[trigger] tracebacks@[t])@ == m.backpointers(
                        obs,
                        t as nat,
                    ),
                last_state < m.state_count(),
                i == obs_len ==> last_state == m.end_state(obs),
                i < obs_len ==> last_state == m.state_at(obs, i as nat),
                forall|t: int| i <= t < obs_len ==> states@[t] == m.state_at(obs, t as nat),
            decreases i,
        {
            i = i - 1;
            proof {
                lemma_step_shape(m, m.costs_after(obs, i as nat), obs[i as int] as int);
                lemma_state_at_bound(m, obs, i as nat);
            }
            let state: usize = tracebacks[i][last_state];
            last_state = state;
            states.set(i, state);
        }
        proof {
            assert(states@ =~= m.path(obs));
            lemma_map_estimate_shape(m, obs);
            assert forall|other: Seq<usize>| #[trigger] m.is_route(obs, other) implies m.route_cost(
                obs,
                m.route(obs),
                obs.len(),
            ) <= m.route_cost(obs, other, obs.len()) by {
                lemma_route_is_cheapest(m, obs, other);
            }
        }
        Ok(states)
    }

    /// Most probable sequence of states behind the observed labels, by the
    /// Viterbi algorithm; empty when there is no observation or when a label
    /// is not one of the model's.
    pub fn map_estimate(&self, observations: Vec<usize>) -> (r: Vec<usize>)
        ensures
            r@ == self@.map_estimate(observations@),
            self@.accepts(observations@) ==> {
                &&& r@.len() == observations@.len()
                &&& forall|t: int| 0 <= t < r@.len() ==> (#[trigger] r@[t]) < self@.state_count()
                &&& self@.decodes_cheapest(observations@)
            },
    {
        match self.try_map_estimate(&observations) {
            Ok(states) => states,
            Err(_) => Vec::new(),
        }
    }
}

} // verus!
