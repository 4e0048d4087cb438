use hmm::fixed::{neg_log2, saturating_sum, INFINITE, ONE};
use hmm::models::{HiddenMarkov, HmmError};

/// Nearest fixed-point number to `x`.
fn fixed(x: f64) -> i64 {
    (x * 4294967296.0).round() as i64
}

fn row(xs: &[f64]) -> Vec<i64> {
    xs.iter().map(|&x| fixed(x)).collect()
}

fn coins() -> HiddenMarkov {
    let initials = row(&[0.5, 0.5]);
    let st = vec![row(&[0.75, 0.25]), row(&[0.25, 0.75])];
    let obs = vec![row(&[0.5, 0.5]), row(&[0.25, 0.75])];
    HiddenMarkov::new(initials, st, obs).unwrap()
}

fn weather() -> HiddenMarkov {
    let initials = row(&[0.6, 0.3, 0.1]);
    let st = vec![
        row(&[0.7, 0.2, 0.1]),
        row(&[0.3, 0.5, 0.2]),
        row(&[0.2, 0.3, 0.5]),
    ];
    let obs = vec![
        row(&[0.6, 0.3, 0.05, 0.05]),
        row(&[0.1, 0.4, 0.4, 0.1]),
        row(&[0.05, 0.05, 0.3, 0.6]),
    ];
    HiddenMarkov::new(initials, st, obs).unwrap()
}

#[test]
fn models_test_new() {
    let initials: Vec<i64> = row(&[0.5, 0.5]);
    let st = vec![row(&[0.75, 0.25]), row(&[0.25, 0.75])];
    let obs = vec![row(&[0.5, 0.5]), row(&[0.25, 0.75])];

    assert!(HiddenMarkov::new(initials, st, obs).is_ok());
}

#[test]
fn models_test_new_none1() {
    let initials: Vec<i64> = row(&[0.5, -0.5]);
    let st = vec![row(&[0.75, 0.25]), row(&[0.25, 0.75])];
    let obs = vec![row(&[0.5, 0.5]), row(&[0.25, 0.75])];

    assert!(HiddenMarkov::new(initials, st, obs).is_err());
}

#[test]
fn test_map_estimation() {
    let initials: Vec<i64> = row(&[0.5, 0.5]);
    let st = vec![row(&[0.75, 0.25]), row(&[0.25, 0.75])];
    let obs = vec![row(&[0.5, 0.5]), row(&[0.25, 0.75])];
    let hmm = HiddenMarkov::new(initials, st, obs).unwrap();
    let estimate = hmm.map_estimate(vec![0, 0, 1, 1, 1]);
    assert!(estimate == vec![0, 0, 1, 1, 1])
}

#[test]
fn counts_of_states_and_labels() {
    assert_eq!(coins().state_count(), 2);
    assert_eq!(coins().label_count(), 2);
    assert_eq!(weather().state_count(), 3);
    assert_eq!(weather().label_count(), 4);
}

#[test]
fn too_few_states() {
    let st = vec![row(&[1.])];
    let obs = vec![row(&[0.5, 0.5])];
    assert_eq!(
        HiddenMarkov::new(row(&[1.]), st, obs).err(),
        Some(HmmError::TooFewStates)
    );
    assert_eq!(
        HiddenMarkov::new(vec![], vec![], vec![]).err(),
        Some(HmmError::TooFewStates)
    );
}

#[test]
fn too_few_states_comes_before_a_negative_initial() {
    let st = vec![row(&[1.])];
    let obs = vec![row(&[0.5, 0.5])];
    assert_eq!(
        HiddenMarkov::new(row(&[-1.]), st, obs).err(),
        Some(HmmError::TooFewStates)
    );
}

#[test]
fn negative_initial() {
    let st = vec![row(&[0.75, 0.25]), row(&[0.25, 0.75])];
    let obs = vec![row(&[0.5, 0.5]), row(&[0.25, 0.75])];
    assert_eq!(
        HiddenMarkov::new(row(&[0.5, -0.5]), st, obs).err(),
        Some(HmmError::NegativeValue)
    );
}

#[test]
fn negative_initial_comes_before_a_ragged_table() {
    let st = vec![row(&[0.75, 0.25]), row(&[0.25])];
    let obs = vec![row(&[0.5, 0.5]), row(&[0.25, 0.75])];
    assert_eq!(
        HiddenMarkov::new(vec![ONE, -1], st, obs).err(),
        Some(HmmError::NegativeValue)
    );
}

#[test]
fn negative_transition() {
    let st = vec![row(&[0.75, 0.25]), row(&[-0.25, 0.75])];
    let obs = vec![row(&[0.5, 0.5]), row(&[0.25, 0.75])];
    assert_eq!(
        HiddenMarkov::new(row(&[0.5, 0.5]), st, obs).err(),
        Some(HmmError::NegativeValue)
    );
}

#[test]
fn negative_emission() {
    let st = vec![row(&[0.75, 0.25]), row(&[0.25, 0.75])];
    let obs = vec![row(&[0.5, 0.5]), row(&[0.25, -0.75])];
    assert_eq!(
        HiddenMarkov::new(row(&[0.5, 0.5]), st, obs).err(),
        Some(HmmError::NegativeValue)
    );
}

#[test]
fn ragged_or_empty_transitions() {
    let obs = vec![row(&[0.5, 0.5]), row(&[0.25, 0.75])];
    let ragged = vec![row(&[0.75, 0.25]), row(&[0.25])];
    assert_eq!(
        HiddenMarkov::new(row(&[0.5, 0.5]), ragged, obs.clone()).err(),
        Some(HmmError::DimensionError)
    );
    assert_eq!(
        HiddenMarkov::new(row(&[0.5, 0.5]), vec![], obs).err(),
        Some(HmmError::DimensionError)
    );
}

#[test]
fn ragged_or_empty_emissions() {
    let st = vec![row(&[0.75, 0.25]), row(&[0.25, 0.75])];
    let ragged = vec![row(&[0.5, 0.5]), row(&[0.25, 0.5, 0.25])];
    assert_eq!(
        HiddenMarkov::new(row(&[0.5, 0.5]), st.clone(), ragged).err(),
        Some(HmmError::DimensionError)
    );
    assert_eq!(
        HiddenMarkov::new(row(&[0.5, 0.5]), st, vec![]).err(),
        Some(HmmError::DimensionError)
    );
}

#[test]
fn ragged_transitions_come_before_a_negative_emission() {
    let st = vec![row(&[0.75, 0.25]), row(&[0.25])];
    let obs = vec![row(&[0.5, 0.5]), row(&[0.25, -0.75])];
    assert_eq!(
        HiddenMarkov::new(row(&[0.5, 0.5]), st, obs).err(),
        Some(HmmError::DimensionError)
    );
}

#[test]
fn too_few_outcomes() {
    let st = vec![row(&[0.75, 0.25]), row(&[0.25, 0.75])];
    let obs = vec![row(&[1.]), row(&[1.])];
    assert_eq!(
        HiddenMarkov::new(row(&[0.5, 0.5]), st, obs).err(),
        Some(HmmError::TooFewOutcomes)
    );
}

#[test]
fn too_few_outcomes_comes_before_a_misfit_of_shapes() {
    let st = vec![row(&[0.75, 0.25]), row(&[0.25, 0.75])];
    let obs = vec![row(&[1.])];
    assert_eq!(
        HiddenMarkov::new(row(&[0.5, 0.5]), st, obs).err(),
        Some(HmmError::TooFewOutcomes)
    );
}

#[test]
fn tables_that_do_not_fit_the_states() {
    let initials = row(&[0.5, 0.5]);
    let square = vec![row(&[0.75, 0.25]), row(&[0.25, 0.75])];
    let emissions = vec![row(&[0.5, 0.5]), row(&[0.25, 0.75])];

    let tall = vec![row(&[0.5, 0.5]), row(&[0.5, 0.5]), row(&[0.5, 0.5])];
    assert_eq!(
        HiddenMarkov::new(initials.clone(), tall, emissions.clone()).err(),
        Some(HmmError::DimensionError)
    );
    let wide = vec![row(&[0.5, 0.25, 0.25]), row(&[0.5, 0.25, 0.25])];
    assert_eq!(
        HiddenMarkov::new(initials.clone(), wide, emissions).err(),
        Some(HmmError::DimensionError)
    );
    let one_state_short = vec![row(&[0.5, 0.5])];
    assert_eq!(
        HiddenMarkov::new(initials, square, one_state_short).err(),
        Some(HmmError::DimensionError)
    );
}

#[test]
fn probabilities_need_not_sum_to_one() {
    let st = vec![row(&[3., 1.]), row(&[1., 3.])];
    let obs = vec![row(&[2., 2.]), row(&[1., 3.])];
    let hmm = HiddenMarkov::new(row(&[2., 2.]), st, obs).unwrap();
    assert_eq!(hmm.map_estimate(vec![0, 0, 1, 1, 1]), vec![0, 0, 1, 1, 1]);
}

#[test]
fn no_observation_decodes_to_nothing() {
    assert_eq!(coins().map_estimate(vec![]), Vec::<usize>::new());
    assert_eq!(
        coins().try_map_estimate(&vec![]),
        Err(HmmError::InvalidObservation)
    );
}

#[test]
fn unknown_label_decodes_to_nothing() {
    assert_eq!(coins().map_estimate(vec![0, 2, 1]), Vec::<usize>::new());
    assert_eq!(coins().map_estimate(vec![2]), Vec::<usize>::new());
    assert_eq!(coins().map_estimate(vec![0, 1, usize::MAX]), Vec::<usize>::new());
    assert_eq!(
        coins().try_map_estimate(&vec![0, 1, 2]),
        Err(HmmError::InvalidObservation)
    );
}

#[test]
fn try_map_estimate_returns_the_path() {
    assert_eq!(
        coins().try_map_estimate(&vec![0, 0, 1, 1, 1]),
        Ok(vec![0, 0, 1, 1, 1])
    );
}

#[test]
fn single_observation() {
    // Heads: the fair coin is the likelier one, and the cheaper to stay with.
    assert_eq!(coins().map_estimate(vec![0]), vec![0]);
    // Tails: the biased coin.
    assert_eq!(coins().map_estimate(vec![1]), vec![1]);
}

#[test]
fn coding_regions() {
    // A: 0, C: 1, G: 2, T: 3; coding: 0, non-coding: 1
    let initials = row(&[0.5, 0.5]);
    let st = vec![row(&[0.98, 0.02]), row(&[0.02, 0.98])];
    let obs = vec![row(&[0.18, 0.32, 0.32, 0.18]), row(&[0.25, 0.25, 0.25, 0.25])];
    let hmm = HiddenMarkov::new(initials, st, obs).unwrap();
    assert_eq!(hmm.map_estimate(vec![0, 3, 2, 1, 2, 0]), vec![1, 1, 1, 1, 1, 1]);
    assert_eq!(hmm.map_estimate(vec![1, 2, 1, 2, 2, 1]), vec![0, 0, 0, 0, 0, 0]);
}

#[test]
fn equal_costs_decode_to_the_first_state() {
    let st = vec![row(&[0.5, 0.5]), row(&[0.5, 0.5])];
    let obs = vec![row(&[0.5, 0.5]), row(&[0.5, 0.5])];
    let hmm = HiddenMarkov::new(row(&[0.5, 0.5]), st, obs).unwrap();
    assert_eq!(hmm.map_estimate(vec![0, 1, 0, 1]), vec![0, 0, 0, 0]);
}

#[test]
fn impossible_start_is_avoided() {
    let st = vec![row(&[0.5, 0.5]), row(&[0.5, 0.5])];
    let obs = vec![row(&[0.5, 0.5]), row(&[0.5, 0.5])];
    let hmm = HiddenMarkov::new(row(&[0., 1.]), st, obs).unwrap();
    assert_eq!(hmm.map_estimate(vec![0]), vec![1]);
    assert_eq!(hmm.map_estimate(vec![0, 0, 0]), vec![1, 0, 0]);
}

#[test]
fn path_has_one_known_state_per_observation() {
    let hmm = weather();
    let sequences: Vec<Vec<usize>> = vec![
        vec![0],
        vec![3, 3, 3],
        vec![0, 1, 2, 3, 2, 1, 0],
        vec![2, 2, 0, 0, 3, 1, 1, 3, 0, 2, 1, 3],
    ];
    for observations in sequences {
        let path = hmm.map_estimate(observations.clone());
        assert_eq!(path.len(), observations.len());
        assert!(path.iter().all(|&s| s < hmm.state_count()));
    }
}

#[test]
fn weather_follows_the_observations() {
    let hmm = weather();
    assert_eq!(hmm.map_estimate(vec![0, 0, 0]), vec![0, 0, 0]);
    assert_eq!(hmm.map_estimate(vec![3, 3, 3]), vec![2, 2, 2]);
}

#[test]
fn decoding_twice_gives_the_same_path() {
    let hmm = weather();
    let observations = vec![0, 3, 2, 1, 1, 0, 3, 3, 2];
    let first = hmm.map_estimate(observations.clone());
    let second = hmm.map_estimate(observations.clone());
    assert_eq!(first, second);
    assert_eq!(hmm.try_map_estimate(&observations), Ok(first));
}

#[test]
fn long_sequences_decode() {
    let hmm = coins();
    let observations: Vec<usize> = (0..5000).map(|t| (t / 50) % 2).collect();
    let path = hmm.map_estimate(observations.clone());
    assert_eq!(path.len(), observations.len());
    assert!(path.iter().all(|&s| s < 2));
}

/// Cost of a route of one state before each observation and one after the
/// last, through the model with the given probabilities.
fn route_cost(
    initials: &[f64],
    transitions: &[Vec<f64>],
    emissions: &[Vec<f64>],
    observations: &[usize],
    route: &[usize],
) -> i64 {
    let mut cost = neg_log2(fixed(initials[route[0]]));
    for t in 0..observations.len() {
        let emitted = neg_log2(fixed(emissions[route[t]][observations[t]]));
        let moved = neg_log2(fixed(transitions[route[t]][route[t + 1]]));
        cost = saturating_sum(moved, saturating_sum(cost, emitted));
    }
    cost
}

/// All sequences of `len` states out of `states`.
fn routes(states: usize, len: usize) -> Vec<Vec<usize>> {
    let mut all: Vec<Vec<usize>> = vec![vec![]];
    for _ in 0..len {
        let mut longer = Vec::new();
        for r in &all {
            for s in 0..states {
                let mut e = r.clone();
                e.push(s);
                longer.push(e);
            }
        }
        all = longer;
    }
    all
}

#[test]
fn decoded_path_is_the_cheapest() {
    let initials = vec![0.6, 0.3, 0.1];
    let st = vec![vec![0.7, 0.2, 0.1], vec![0.3, 0.5, 0.2], vec![0.2, 0.3, 0.5]];
    let obs = vec![
        vec![0.6, 0.3, 0.05, 0.05],
        vec![0.1, 0.4, 0.4, 0.1],
        vec![0.05, 0.05, 0.3, 0.6],
    ];
    let hmm = weather();
    for observations in [vec![0, 3, 2, 1, 1], vec![3, 0, 3, 0], vec![2], vec![1, 1, 2, 2, 3, 3]] {
        let path = hmm.map_estimate(observations.clone());
        let decoded = (0..3)
            .map(|end| {
                let mut route = path.clone();
                route.push(end);
                route_cost(&initials, &st, &obs, &observations, &route)
            })
            .min()
            .unwrap();
        let cheapest = routes(3, observations.len() + 1)
            .iter()
            .map(|r| route_cost(&initials, &st, &obs, &observations, r))
            .min()
            .unwrap();
        assert_eq!(decoded, cheapest);
    }
}

#[test]
fn impossible_steps_are_never_taken() {
    // State 1 cannot be left and never shows label 1.
    let initials = vec![0.5, 0.5];
    let st = vec![vec![0.5, 0.5], vec![0., 1.]];
    let obs = vec![vec![0.5, 0.5], vec![1., 0.]];
    let hmm = HiddenMarkov::new(
        row(&initials),
        st.iter().map(|r| row(r)).collect(),
        obs.iter().map(|r| row(r)).collect(),
    )
    .unwrap();
    let observations = vec![0, 0, 1, 0];
    let path = hmm.map_estimate(observations.clone());
    // Label 1 can only come from state 0; the last label is likelier in state 1.
    assert_eq!(path, vec![0, 0, 0, 1]);
    let mut route = path.clone();
    route.push(1);
    assert!(route_cost(&initials, &st, &obs, &observations, &route) < INFINITE);
    assert_eq!(
        route_cost(&initials, &st, &obs, &observations, &[1, 1, 1, 1, 1]),
        INFINITE
    );
}
